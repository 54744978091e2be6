use filesplit::merge::concat_parts;
use filesplit::merge::merge_parts;
use filesplit::pump::copy_bounded;
use filesplit::split::split_into_parts;
use filesplit::split::SplitError;

fn bytes(n: usize) -> Vec<u8> {
    (0..n).map(|i| (i % 251) as u8).collect()
}

#[test]
fn split_zero_length_file_has_no_parts() {
    let parts = split_into_parts(&Vec::new(), 4).unwrap();
    assert_eq!(parts.len(), 0);
}

#[test]
fn split_exact_part_size_gives_one_part() {
    let data = bytes(8);
    let parts = split_into_parts(&data, 8).unwrap();
    assert_eq!(parts.len(), 1);
    assert_eq!(parts[0], data);
}

#[test]
fn split_exact_multiple_has_no_trailing_empty_part() {
    let data = bytes(12);
    let parts = split_into_parts(&data, 4).unwrap();
    assert_eq!(parts.len(), 3);
    for part in &parts {
        assert_eq!(part.len(), 4);
    }
}

#[test]
fn split_remainder_goes_into_short_last_part() {
    let data = bytes(10);
    let parts = split_into_parts(&data, 4).unwrap();
    assert_eq!(parts.len(), 3);
    assert_eq!(parts[0], &data[0..4]);
    assert_eq!(parts[1], &data[4..8]);
    assert_eq!(parts[2], &data[8..10]);
}

#[test]
fn split_rejects_zero_part_size() {
    assert_eq!(split_into_parts(&bytes(5), 0), Err(SplitError::ZeroPartSize));
}

#[test]
fn round_trip_restores_data_and_counts_parts() {
    for (len, part_size) in [
        (0usize, 1u64),
        (1, 1),
        (1, 8),
        (7, 3),
        (8, 4),
        (9, 4),
        (4096, 4096),
        (10000, 4096),
        (10000, 1),
    ] {
        let data = bytes(len);
        let parts = split_into_parts(&data, part_size).unwrap();
        let expected_count = if len as u64 % part_size == 0 {
            len as u64 / part_size
        } else {
            len as u64 / part_size + 1
        };
        assert_eq!(parts.len() as u64, expected_count);
        assert_eq!(concat_parts(&parts), data);
    }
}

#[test]
fn merge_with_no_parts_gives_empty_output() {
    let (out, count) = merge_parts(&Vec::new());
    assert_eq!(out, Vec::<u8>::new());
    assert_eq!(count, 0);
}

#[test]
fn merge_with_absent_first_part_gives_empty_output() {
    let (out, count) = merge_parts(&vec![None, Some(bytes(3))]);
    assert_eq!(out, Vec::<u8>::new());
    assert_eq!(count, 0);
}

#[test]
fn merge_stops_at_gap_and_never_reads_past_it() {
    let first = vec![1u8, 2, 3];
    let third = vec![9u8, 9, 9];
    let (out, count) = merge_parts(&vec![Some(first.clone()), None, Some(third)]);
    assert_eq!(count, 1);
    assert_eq!(out, first);
}

#[test]
fn merge_of_contiguous_parts_concatenates_in_order() {
    let (out, count) = merge_parts(&vec![
        Some(vec![1u8, 2]),
        Some(vec![3u8]),
        Some(vec![4u8, 5, 6]),
    ]);
    assert_eq!(count, 3);
    assert_eq!(out, vec![1u8, 2, 3, 4, 5, 6]);
}

#[test]
fn concat_of_no_parts_is_empty() {
    assert_eq!(concat_parts(&Vec::new()), Vec::<u8>::new());
}

#[test]
fn copy_bounded_respects_budget() {
    let src = bytes(10);
    let mut out = Vec::new();
    let copied = copy_bounded(&src, 2, 3, &mut out);
    assert_eq!(copied, 3);
    assert_eq!(out, &src[2..5]);
}

#[test]
fn copy_bounded_stops_at_end_of_source() {
    let src = bytes(10);
    let mut out = vec![42u8];
    let copied = copy_bounded(&src, 6, 100, &mut out);
    assert_eq!(copied, 4);
    assert_eq!(out[0], 42);
    assert_eq!(&out[1..], &src[6..10]);
}

#[test]
fn copy_bounded_crosses_buffer_boundaries() {
    let src = bytes(10000);
    let mut out = Vec::new();
    let copied = copy_bounded(&src, 0, 9000, &mut out);
    assert_eq!(copied, 9000);
    assert_eq!(out, &src[0..9000]);
}

#[test]
fn copy_bounded_with_zero_budget_copies_nothing() {
    let src = bytes(4);
    let mut out = Vec::new();
    assert_eq!(copy_bounded(&src, 0, 0, &mut out), 0);
    assert!(out.is_empty());
}
