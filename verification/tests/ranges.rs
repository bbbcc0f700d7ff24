use lfc::{
    canonicalize, decompose_range, largest_aligned_block, merge_intervals, sort_intervals, Block,
    Family, Interval,
};

fn v4(start: u128, end: u128) -> Interval {
    Interval::new(Family::V4, start, end).unwrap()
}

fn v6(start: u128, end: u128) -> Interval {
    Interval::new(Family::V6, start, end).unwrap()
}

fn bounds(list: &Vec<Interval>) -> Vec<(u128, u128)> {
    list.iter().map(|i| (i.start(), i.end())).collect()
}

fn parts(list: &Vec<Block>) -> Vec<(u128, u8)> {
    list.iter().map(|b| (b.address(), b.prefix_len())).collect()
}

#[test]
fn largest_block_is_limited_by_alignment() {
    assert_eq!(largest_aligned_block(&v4(1, 14)), (0, 32));
    assert_eq!(largest_aligned_block(&v4(6, 100)), (1, 31));
    assert_eq!(largest_aligned_block(&v4(0xc0a8_0100, 0xc0a8_ffff)), (0xff, 24));
}

#[test]
fn largest_block_is_limited_by_room() {
    assert_eq!(largest_aligned_block(&v4(8, 14)), (3, 30));
    assert_eq!(largest_aligned_block(&v4(0, 5)), (3, 30));
    assert_eq!(largest_aligned_block(&v4(0, 0)), (0, 32));
    assert_eq!(largest_aligned_block(&v4(16, 31)), (15, 28));
    assert_eq!(largest_aligned_block(&v4(16, 30)), (7, 29));
}

#[test]
fn largest_block_at_zero_takes_every_power_of_two() {
    assert_eq!(largest_aligned_block(&v4(0, 0xffff_ffff)), (0xffff_ffff, 0));
    assert_eq!(largest_aligned_block(&v4(0, 0xffff_fffe)), (0x7fff_ffff, 1));
    assert_eq!(largest_aligned_block(&v6(0, u128::MAX)), (u128::MAX, 0));
    assert_eq!(largest_aligned_block(&v6(0, u128::MAX - 1)), (u128::MAX >> 1, 1));
    assert_eq!(largest_aligned_block(&v6(0, 0xffff_ffff)), (0xffff_ffff, 96));
}

#[test]
fn largest_block_at_the_top_of_the_space() {
    assert_eq!(largest_aligned_block(&v4(0xffff_ffff, 0xffff_ffff)), (0, 32));
    assert_eq!(largest_aligned_block(&v4(0xffff_fffe, 0xffff_ffff)), (1, 31));
    assert_eq!(largest_aligned_block(&v4(0x8000_0000, 0xffff_ffff)), (0x7fff_ffff, 1));
    assert_eq!(largest_aligned_block(&v6(u128::MAX, u128::MAX)), (0, 128));
    assert_eq!(largest_aligned_block(&v6(1 << 127, u128::MAX)), (u128::MAX >> 1, 1));
}

#[test]
fn decompose_unaligned_range() {
    let blocks = decompose_range(&v4(1, 14));
    assert_eq!(parts(&blocks), vec![(1, 32), (2, 31), (4, 30), (8, 30), (12, 31), (14, 32)]);
    assert!(blocks.iter().all(|b| b.family() == Family::V4));
}

#[test]
fn decompose_aligned_range_is_one_block() {
    assert_eq!(parts(&decompose_range(&v4(0xc0a8_0000, 0xc0a8_01ff))), vec![(0xc0a8_0000, 23)]);
    assert_eq!(parts(&decompose_range(&v4(5, 5))), vec![(5, 32)]);
    assert_eq!(parts(&decompose_range(&v4(0, 0xffff_ffff))), vec![(0, 0)]);
    let blocks = decompose_range(&v6(0, u128::MAX));
    assert_eq!(parts(&blocks), vec![(0, 0)]);
    assert_eq!(blocks[0].family(), Family::V6);
}

#[test]
fn decompose_three_equal_blocks() {
    // 10.0.7.0 - 10.0.9.255
    assert_eq!(
        parts(&decompose_range(&v4(0x0a00_0700, 0x0a00_09ff))),
        vec![(0x0a00_0700, 24), (0x0a00_0800, 23)]
    );
}

#[test]
fn decompose_range_that_ends_at_the_highest_address() {
    assert_eq!(parts(&decompose_range(&v4(0xffff_fffe, 0xffff_ffff))), vec![(0xffff_fffe, 31)]);
    assert_eq!(parts(&decompose_range(&v4(0xffff_ffff, 0xffff_ffff))), vec![(0xffff_ffff, 32)]);
    assert_eq!(
        parts(&decompose_range(&v4(0xffff_fffd, 0xffff_ffff))),
        vec![(0xffff_fffd, 32), (0xffff_fffe, 31)]
    );
    assert_eq!(
        parts(&decompose_range(&v6(u128::MAX - 2, u128::MAX))),
        vec![(u128::MAX - 2, 128), (u128::MAX - 1, 127)]
    );
}

#[test]
fn decompose_all_but_the_first_address() {
    let blocks = decompose_range(&v6(1, u128::MAX));
    assert_eq!(blocks.len(), 128);
    for (k, b) in blocks.iter().enumerate() {
        assert_eq!(b.address(), 1u128 << k);
        assert_eq!(usize::from(b.prefix_len()), 128 - k);
    }
    let blocks = decompose_range(&v4(1, 0xffff_ffff));
    assert_eq!(blocks.len(), 32);
    assert_eq!(parts(&blocks)[31], (0x8000_0000, 1));
}

#[test]
fn decompose_all_but_the_last_address() {
    let blocks = decompose_range(&v4(0, 0xffff_fffe));
    assert_eq!(blocks.len(), 32);
    assert_eq!(parts(&blocks)[0], (0, 1));
    assert_eq!(parts(&blocks)[1], (0x8000_0000, 2));
    assert_eq!(parts(&blocks)[31], (0xffff_fffe, 32));
}

#[test]
fn decomposition_partitions_the_range() {
    let range = v4(1000, 123_456);
    let blocks = decompose_range(&range);
    let mut next = range.start();
    for b in &blocks {
        let i = b.to_interval();
        assert_eq!(i.start(), next);
        assert_eq!(b.address() % (i.end() - i.start() + 1), 0);
        next = i.end() + 1;
    }
    assert_eq!(next, range.end() + 1);
}

#[test]
fn sort_puts_longer_interval_first_on_equal_start() {
    let sorted = sort_intervals(&vec![v4(5, 9), v4(1, 2), v4(5, 20), v4(1, 3), v4(0, 0)]);
    assert_eq!(bounds(&sorted), vec![(0, 0), (1, 3), (1, 2), (5, 20), (5, 9)]);
}

#[test]
fn sort_keeps_duplicates_and_handles_small_inputs() {
    assert_eq!(bounds(&sort_intervals(&vec![])), vec![]);
    assert_eq!(bounds(&sort_intervals(&vec![v6(4, 8)])), vec![(4, 8)]);
    let sorted = sort_intervals(&vec![v6(4, 8), v6(1, 1), v6(4, 8)]);
    assert_eq!(bounds(&sorted), vec![(1, 1), (4, 8), (4, 8)]);
}

#[test]
fn sort_many() {
    let mut input = Vec::new();
    let mut x: u128 = 12345;
    for _ in 0..1000 {
        x = (x * 1_103_515_245 + 12_345) % 0x8000_0000;
        input.push(v4(x % 5000, x % 5000 + x % 7));
    }
    let sorted = sort_intervals(&input);
    assert_eq!(sorted.len(), 1000);
    for w in sorted.windows(2) {
        assert!(w[0].start() < w[1].start() || (w[0].start() == w[1].start() && w[0].end() >= w[1].end()));
    }
    let mut expected = bounds(&input);
    expected.sort();
    let mut got = bounds(&sorted);
    got.sort();
    assert_eq!(got, expected);
}

#[test]
fn merge_empty_gives_nothing() {
    assert_eq!(bounds(&merge_intervals(&vec![])), vec![]);
}

#[test]
fn merge_joins_overlapping_and_adjacent() {
    let merged = merge_intervals(&vec![v4(50, 60), v4(31, 40), v4(10, 20), v4(15, 30), v4(52, 55)]);
    assert_eq!(bounds(&merged), vec![(10, 40), (50, 60)]);
    assert!(merged.iter().all(|i| i.family() == Family::V4));
}

#[test]
fn merge_keeps_intervals_with_a_gap() {
    let merged = merge_intervals(&vec![v4(10, 20), v4(22, 30)]);
    assert_eq!(bounds(&merged), vec![(10, 20), (22, 30)]);
}

#[test]
fn merge_collapses_identical_intervals() {
    let merged = merge_intervals(&vec![v6(7, 9), v6(7, 9), v6(7, 9)]);
    assert_eq!(bounds(&merged), vec![(7, 9)]);
    assert_eq!(merged[0].family(), Family::V6);
}

#[test]
fn merge_absorbs_contained_interval_with_same_start() {
    let merged = merge_intervals(&vec![v4(10, 12), v4(10, 50), v4(20, 30), v4(51, 51)]);
    assert_eq!(bounds(&merged), vec![(10, 51)]);
}

#[test]
fn merge_does_not_wrap_at_the_highest_address() {
    let merged = merge_intervals(&vec![v4(0xffff_fff0, 0xffff_ffff), v4(0, 5)]);
    assert_eq!(bounds(&merged), vec![(0, 5), (0xffff_fff0, 0xffff_ffff)]);
    let merged = merge_intervals(&vec![v6(5, u128::MAX), v6(0, 3), v6(7, 9), v6(u128::MAX, u128::MAX)]);
    assert_eq!(bounds(&merged), vec![(0, 3), (5, u128::MAX)]);
    let merged = merge_intervals(&vec![v6(0, 3), v6(4, u128::MAX)]);
    assert_eq!(bounds(&merged), vec![(0, u128::MAX)]);
}

#[test]
fn merged_ranges_are_apart() {
    let merged = merge_intervals(&vec![v4(1, 2), v4(4, 6), v4(3, 3), v4(9, 9), v4(11, 12), v4(8, 8)]);
    assert_eq!(bounds(&merged), vec![(1, 6), (8, 9), (11, 12)]);
    for w in merged.windows(2) {
        assert!(w[0].end() + 1 < w[1].start());
    }
}

#[test]
fn interval_of_block_decomposes_to_the_block() {
    let b = canonicalize(Family::V6, 0x2001_0db8 << 96, 32).unwrap();
    assert_eq!(decompose_range(&b.to_interval()), vec![b]);
}
