//! Match-span reconstruction: coalescing matched positions into contiguous
//! byte ranges, with exact byte arithmetic over multi-byte characters and
//! defensive handling of broken offsets.

use fuzzy::matches::{MatchRange, StringMatch};

fn match_over(string: &str, positions: Vec<usize>) -> StringMatch {
    StringMatch { candidate_id: 0, score: 1, positions, string: string.to_owned() }
}

fn range(start: usize, end: usize) -> MatchRange {
    MatchRange { start, end }
}

#[test]
fn ranges_coalesce_adjacent_positions() {
    let m = match_over("abcdef", vec![0, 1, 2, 5]);
    assert_eq!(m.ranges(), vec![range(0, 3), range(5, 6)]);
}

#[test]
fn ranges_use_byte_lengths_of_multibyte_characters() {
    // In "héllo" the 2-byte character starts at offset 1 and ends at 3, so
    // positions 0, 1 and 3 form one contiguous run of 4 bytes.
    let m = match_over("h\u{e9}llo", vec![0, 1, 3]);
    assert_eq!(m.ranges(), vec![range(0, 4)]);
}

#[test]
fn ranges_empty_positions_give_no_ranges() {
    let m = match_over("abc", Vec::new());
    assert!(m.ranges().is_empty());
}

#[test]
fn ranges_single_position() {
    let m = match_over("abc", vec![2]);
    assert_eq!(m.ranges(), vec![range(2, 3)]);
}

#[test]
fn ranges_drop_everything_from_a_broken_offset() {
    // Offset 2 is inside the 2-byte character: earlier complete ranges are
    // kept, the corrupted run and everything after it are dropped.
    let m = match_over("h\u{e9}llo", vec![0, 2]);
    assert_eq!(m.ranges(), vec![range(0, 1)]);
    let m = match_over("h\u{e9}llo", vec![2]);
    assert!(m.ranges().is_empty());
    let m = match_over("abc", vec![7]);
    assert!(m.ranges().is_empty());
}

#[test]
fn score_accessor_and_set_positions() {
    let mut m = match_over("abc", vec![0]);
    assert_eq!(m.score(), 1);
    m.set_positions(vec![1, 2]);
    assert_eq!(m.positions, vec![1, 2]);
    assert_eq!(m.ranges(), vec![range(1, 3)]);
}

#[test]
fn match_equality_follows_score_and_id() {
    let a = match_over("abc", vec![0]);
    let b = match_over("xyz", vec![2]);
    // Equality looks at score and id only, not at text or positions.
    assert!(a == b);
    let mut c = match_over("abc", vec![0]);
    c.candidate_id = 9;
    assert!(a != c);
}
