use bittorrent::piece::{block_count, block_size, piece_count, piece_size, BLOCK_MAX};

#[test]
fn pieces_of_uneven_total() {
    assert_eq!(piece_count(1000, 400), 3);
    assert_eq!(piece_size(1000, 400, 0), 400);
    assert_eq!(piece_size(1000, 400, 2), 200);
}

#[test]
fn last_piece_is_whole_when_length_divides_total() {
    assert_eq!(piece_count(1200, 400), 3);
    assert_eq!(piece_size(1200, 400, 2), 400);
}

#[test]
fn blocks_of_a_piece() {
    assert_eq!(block_count(20000, 16384), 2);
    assert_eq!(block_size(20000, 16384, 0), 16384);
    assert_eq!(block_size(20000, 16384, 1), 3616);
}

#[test]
fn sizes_for_second_piece_of_single_file() {
    let size = piece_size(500000, 262144, 1);
    assert_eq!(piece_count(500000, 262144), 2);
    assert_eq!(size, 237856);
    assert_eq!(block_count(size, BLOCK_MAX), 15);
    assert_eq!(block_size(size, BLOCK_MAX, 14), 237856 - 14 * 16384);
}
