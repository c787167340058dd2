use advent::defrag::{
    build_sectors, checksum, decode, defragment_block, defragment_file, solve1, solve2, Block,
    Sector,
};

fn store(pattern: &[i32]) -> Vec<Block> {
    pattern
        .iter()
        .map(|&p| if p < 0 { Block::Empty } else { Block::File(p as usize) })
        .collect()
}

#[test]
fn decode_expands_alternating_runs() {
    let digits: Vec<u8> = b"12345".to_vec();
    let blocks = decode(&digits);
    let expected = store(&[0, -1, -1, 1, 1, 1, -1, -1, -1, -1, 2, 2, 2, 2, 2]);
    assert_eq!(blocks, expected);
}

#[test]
fn decode_skips_other_characters() {
    let digits: Vec<u8> = b"21\n".to_vec();
    let blocks = decode(&digits);
    assert_eq!(blocks, store(&[0, 0, -1]));
}

#[test]
fn checksum_weights_position_by_id() {
    let blocks = store(&[0, 0, 2, -1, 3]);
    assert_eq!(checksum(&blocks), 2 * 2 + 4 * 3);
}

#[test]
fn checksum_is_idempotent() {
    let blocks = store(&[1, -1, 4, 4, -1, 2]);
    let first = checksum(&blocks);
    let second = checksum(&blocks);
    assert_eq!(first, second);
}

#[test]
fn sectors_partition_the_store() {
    let blocks = store(&[0, 0, 1, 1, 1, -1, -1, 9, 9, 9]);
    let sectors = build_sectors(&blocks);
    assert_eq!(
        sectors,
        vec![
            Sector::File(0, 0, 2, false),
            Sector::File(1, 2, 3, false),
            Sector::Empty(5, 2),
            Sector::File(9, 7, 3, false),
        ]
    );
}

#[test]
fn sectors_mark_eligibility_from_free_runs_on_the_left() {
    let blocks = store(&[-1, -1, 7, 7, -1, 8]);
    let sectors = build_sectors(&blocks);
    assert_eq!(
        sectors,
        vec![
            Sector::Empty(0, 2),
            Sector::File(7, 2, 2, true),
            Sector::Empty(4, 1),
            Sector::File(8, 5, 1, true),
        ]
    );
}

#[test]
fn unit_compactor_packs_blocks_left() {
    let mut blocks = store(&[0, -1, 1, -1, 2]);
    defragment_block(&mut blocks);
    assert_eq!(blocks, store(&[0, 2, 1, -1, -1]));
}

#[test]
fn scenario_a_long_file_stays_in_place() {
    let initial = store(&[0, 0, 1, 1, 1, -1, -1, 9, 9, 9]);
    let mut blocks = initial.clone();
    defragment_file(&mut blocks);
    assert_eq!(blocks, initial);
}

#[test]
fn scenario_a_short_file_moves_into_leading_gap() {
    let mut blocks = store(&[0, 0, 1, 1, 1, -1, -1, 9, 9]);
    defragment_file(&mut blocks);
    assert_eq!(blocks, store(&[0, 0, 1, 1, 1, 9, 9, -1, -1]));
}

#[test]
fn scenario_b_canonical_checksums() {
    let digits: Vec<u8> = b"2333133121414131402".to_vec();
    let blocks = decode(&digits);

    let mut part1 = blocks.clone();
    assert_eq!(solve1(&mut part1), 1928);

    let mut part2 = blocks.clone();
    assert_eq!(solve2(&mut part2), 2858);
}

#[test]
fn scenario_c_full_store_is_untouched() {
    let initial = store(&[0, 0, 1, 9]);
    let expected = checksum(&initial);

    let mut unit = initial.clone();
    assert_eq!(solve1(&mut unit), expected);
    assert_eq!(unit, initial);

    let mut whole = initial.clone();
    assert_eq!(solve2(&mut whole), expected);
    assert_eq!(whole, initial);
}

#[test]
fn scenario_d_single_trailing_file_moves_left() {
    let mut unit = store(&[-1, -1, -1, 5]);
    defragment_block(&mut unit);
    assert_eq!(unit, store(&[5, -1, -1, -1]));

    let mut whole = store(&[-1, -1, -1, 5]);
    defragment_file(&mut whole);
    assert_eq!(whole, store(&[5, -1, -1, -1]));
}

#[test]
fn scenario_d_wide_trailing_file_needs_a_wide_run() {
    let mut whole = store(&[-1, 0, 0, -1, -1, 7, 7]);
    defragment_file(&mut whole);
    assert_eq!(whole, store(&[-1, 0, 0, 7, 7, -1, -1]));
}

#[test]
fn file_compactor_conserves_blocks() {
    let digits: Vec<u8> = b"2333133121414131402".to_vec();
    let initial = decode(&digits);
    let mut blocks = initial.clone();
    defragment_file(&mut blocks);

    let count = |v: &Vec<Block>| v.iter().filter(|b| matches!(b, Block::File(_))).count();
    assert_eq!(count(&blocks), count(&initial));

    let mut ids_before: Vec<usize> = initial
        .iter()
        .filter_map(|b| match b {
            Block::File(id) => Some(*id),
            Block::Empty => None,
        })
        .collect();
    let mut ids_after: Vec<usize> = blocks
        .iter()
        .filter_map(|b| match b {
            Block::File(id) => Some(*id),
            Block::Empty => None,
        })
        .collect();
    ids_before.sort();
    ids_after.sort();
    assert_eq!(ids_after, ids_before);
}
