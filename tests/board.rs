use std::collections::HashSet;
use sudoku::board::{seed_from_draws, Gameboard};

fn set_of(values: &[u8]) -> HashSet<u8> {
    values.iter().copied().collect()
}

fn numbered_board() -> Gameboard {
    // each row is 1..=9 rotated by three per row and one more per band
    let mut b = Gameboard::new();
    for row in 0..9usize {
        for col in 0..9usize {
            let v = ((col + row * 3 + row / 3) % 9 + 1) as u8;
            b.set([col, row], v);
        }
    }
    b
}

#[test]
fn new_board_is_empty() {
    let b = Gameboard::new();
    for row in 0..9 {
        for col in 0..9 {
            assert_eq!(b.cells[row][col], 0);
            assert_eq!(b.char([col, row]), None);
        }
    }
}

#[test]
fn set_then_char_gives_digit_everywhere() {
    let mut b = Gameboard::new();
    for row in 0..9usize {
        for col in 0..9usize {
            for value in 1..=9u8 {
                b.set([col, row], value);
                assert_eq!(b.char([col, row]), Some((b'0' + value) as char));
            }
            b.set([col, row], 0);
            assert_eq!(b.char([col, row]), None);
        }
    }
}

#[test]
fn set_writes_row_major_cell() {
    let mut b = Gameboard::new();
    b.set([2, 7], 4);
    assert_eq!(b.cells[7][2], 4);
    assert_eq!(b.cells[2][7], 0);
    assert_eq!(b.char([2, 7]), Some('4'));
    assert_eq!(b.char([7, 2]), None);
}

#[test]
fn leftright_excludes_own_column_and_keeps_zero() {
    let mut b = Gameboard::new();
    b.set([0, 4], 5);
    b.set([3, 4], 8);
    b.set([3, 5], 9);
    assert_eq!(b.leftright(3, 4), set_of(&[0, 5]));
    assert_eq!(b.leftright(0, 4), set_of(&[0, 8]));
    assert_eq!(b.leftright(8, 4), set_of(&[0, 5, 8]));
}

#[test]
fn leftright_of_full_row() {
    let b = numbered_board();
    // row 0 is 1..=9 in order; leaving out column 4 drops the 5
    assert_eq!(b.leftright(4, 0), set_of(&[1, 2, 3, 4, 6, 7, 8, 9]));
}

#[test]
fn updown_excludes_own_row_and_keeps_zero() {
    let mut b = Gameboard::new();
    b.set([6, 0], 2);
    b.set([6, 8], 3);
    b.set([5, 2], 7);
    assert_eq!(b.updown(6, 8), set_of(&[0, 2]));
    assert_eq!(b.updown(6, 4), set_of(&[0, 2, 3]));
    assert_eq!(b.updown(5, 2), set_of(&[0]));
}

#[test]
fn updown_of_full_column() {
    let b = numbered_board();
    let col = 0usize;
    let expected: HashSet<u8> = (0..9usize)
        .filter(|&row| row != 3)
        .map(|row| b.cells[row][col])
        .collect();
    assert_eq!(b.updown(col, 3), expected);
    assert!(!b.updown(col, 3).contains(&b.cells[3][col]));
}

#[test]
fn inbox_covers_the_whole_box_including_the_cell() {
    let mut b = Gameboard::new();
    b.set([4, 4], 6);
    b.set([3, 5], 1);
    b.set([6, 4], 9);
    // cell (4, 4) is in the middle box, columns and rows 3..6
    assert_eq!(b.inbox(4, 4), set_of(&[0, 1, 6]));
    assert_eq!(b.inbox(5, 3), set_of(&[0, 1, 6]));
    assert_eq!(b.inbox(6, 4), set_of(&[0, 9]));
    assert_eq!(b.inbox(0, 0), set_of(&[0]));
}

#[test]
fn inbox_of_full_box_has_no_zero() {
    let mut b = Gameboard::new();
    for row in 6..9usize {
        for col in 6..9usize {
            b.set([col, row], ((row - 6) * 3 + (col - 6) + 1) as u8);
        }
    }
    assert_eq!(b.inbox(8, 8), set_of(&[1, 2, 3, 4, 5, 6, 7, 8, 9]));
    assert_eq!(b.inbox(7, 6), set_of(&[1, 2, 3, 4, 5, 6, 7, 8, 9]));
    assert_eq!(b.inbox(5, 8), set_of(&[0]));
}

#[test]
fn populate_rows_are_each_all_digits() {
    let mut b = Gameboard::new();
    b.populate();
    let digits = set_of(&[1, 2, 3, 4, 5, 6, 7, 8, 9]);
    for row in 0..9 {
        let row_set: HashSet<u8> = b.cells[row].iter().copied().collect();
        assert_eq!(row_set, digits);
    }
}

#[test]
fn populate_rows_follow_the_index_table() {
    let table: [[usize; 9]; 9] = [
        [0, 1, 2, 3, 4, 5, 6, 7, 8],
        [3, 4, 5, 6, 7, 8, 0, 1, 2],
        [6, 7, 8, 0, 1, 2, 3, 4, 5],
        [7, 8, 0, 1, 2, 3, 4, 5, 6],
        [1, 2, 3, 4, 5, 6, 7, 8, 0],
        [4, 5, 6, 7, 8, 0, 1, 2, 3],
        [5, 6, 7, 8, 0, 1, 2, 3, 4],
        [8, 0, 1, 2, 3, 4, 5, 6, 7],
        [2, 3, 4, 5, 6, 7, 8, 0, 1],
    ];
    for _ in 0..20 {
        let mut b = Gameboard::new();
        b.populate();
        let seed = b.cells[0];
        for j in 0..9 {
            for i in 0..9 {
                assert_eq!(b.cells[j][i], seed[table[j][i]]);
            }
        }
    }
}

#[test]
fn populate_overwrites_earlier_cells() {
    let mut b = Gameboard::new();
    b.set([0, 0], 0);
    b.populate();
    for row in 0..9 {
        for col in 0..9 {
            assert!(b.char([col, row]).is_some());
        }
    }
}

#[test]
fn populate_draws_different_seeds() {
    // a generator that kept handing back a fixed index would give one seed
    let mut seeds = HashSet::new();
    for _ in 0..30 {
        let mut b = Gameboard::new();
        b.populate();
        seeds.insert(b.cells[0]);
    }
    assert!(seeds.len() > 1);
}

#[test]
fn solved_is_false_after_new_and_populate() {
    let mut b = Gameboard::new();
    assert!(!b.solved());
    b.populate();
    assert!(!b.solved());
}

#[test]
fn seed_from_zero_draws_is_increasing() {
    assert_eq!(seed_from_draws(&[0; 9]), vec![1, 2, 3, 4, 5, 6, 7, 8, 9]);
}

#[test]
fn seed_from_last_index_draws_is_decreasing() {
    assert_eq!(
        seed_from_draws(&[8, 7, 6, 5, 4, 3, 2, 1, 0]),
        vec![9, 8, 7, 6, 5, 4, 3, 2, 1]
    );
}

#[test]
fn seed_draws_pick_among_remaining_digits() {
    // 3 from 1..=9, then 1 from [1,2,4,..], then 9 from [2,4,5,6,7,8,9]
    assert_eq!(
        seed_from_draws(&[2, 0, 6, 0, 0, 0, 0, 0, 0]),
        vec![3, 1, 9, 2, 4, 5, 6, 7, 8]
    );
}

#[test]
fn fill_from_draws_follows_the_table() {
    let mut b = Gameboard::new();
    b.fill_from_draws(&[2, 0, 6, 0, 0, 0, 0, 0, 0]);
    assert_eq!(b.cells[0], [3, 1, 9, 2, 4, 5, 6, 7, 8]);
    assert_eq!(b.cells[1], [2, 4, 5, 6, 7, 8, 3, 1, 9]);
    assert_eq!(b.cells[3], [7, 8, 3, 1, 9, 2, 4, 5, 6]);
    assert_eq!(b.cells[8], [9, 2, 4, 5, 6, 7, 8, 3, 1]);
}

#[test]
fn fill_with_same_draws_gives_same_board() {
    let draws = [4, 7, 0, 3, 2, 1, 2, 1, 0];
    let mut a = Gameboard::new();
    let mut b = Gameboard::new();
    b.set([5, 5], 9);
    b.populate();
    a.fill_from_draws(&draws);
    b.fill_from_draws(&draws);
    assert_eq!(a.cells, b.cells);
}
