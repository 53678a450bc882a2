use minesweeper::{Board, Cell};

fn mines_on(b: &Board) -> usize {
    let mut n = 0;
    for y in 0..b.height() {
        for x in 0..b.width() {
            if b.get(x, y).unwrap().is_mine() {
                n += 1;
            }
        }
    }
    n
}

fn neighbours_mined(b: &Board, x: usize, y: usize) -> u8 {
    let mut n = 0;
    for dy in -1i64..=1 {
        for dx in -1i64..=1 {
            if dx == 0 && dy == 0 {
                continue;
            }
            let (a, c) = (x as i64 + dx, y as i64 + dy);
            if a < 0 || c < 0 {
                continue;
            }
            if let Some(cell) = b.get(a as usize, c as usize) {
                if cell.is_mine() {
                    n += 1;
                }
            }
        }
    }
    n
}

fn counts_agree(b: &Board) -> bool {
    for y in 0..b.height() {
        for x in 0..b.width() {
            let cell = *b.get(x, y).unwrap();
            if cell != Cell::Mine && cell != Cell::Count(neighbours_mined(b, x, y)) {
                return false;
            }
        }
    }
    true
}

#[test]
fn new_board_all_zero() {
    let b = Board::new(4, 3);
    assert_eq!(b.width(), 4);
    assert_eq!(b.height(), 3);
    assert_eq!(b.cursor(), (0, 0));
    for y in 0..3 {
        for x in 0..4 {
            assert_eq!(b.get(x, y), Some(&Cell::Count(0)));
        }
    }
    assert_eq!(b.get(4, 0), None);
    assert_eq!(b.get(0, 3), None);
}

#[test]
fn new_board_degenerate() {
    let b = Board::new(0, 5);
    assert_eq!(b.get(0, 0), None);
    let b = Board::new(5, 0);
    assert_eq!(b.get(0, 0), None);
}

#[test]
fn get_off_grid_is_none() {
    let b = Board::new(3, 3);
    // (5, 0) would land on a real cell if only the flat index were checked
    assert_eq!(b.get(5, 0), None);
    assert_eq!(b.get(3, 1), None);
    assert_eq!(b.get(0, 3), None);
    assert_eq!(b.get(usize::MAX, usize::MAX), None);
    assert_eq!(b.get(2, 2), Some(&Cell::Count(0)));
}

#[test]
fn centre_mine_on_three_by_three() {
    let mut b = Board::new(3, 3);
    b.place_mine(4);
    assert_eq!(b.get(1, 1), Some(&Cell::Mine));
    for y in 0..3 {
        for x in 0..3 {
            if (x, y) != (1, 1) {
                assert_eq!(b.get(x, y), Some(&Cell::Count(1)));
            }
        }
    }
}

#[test]
fn corner_mine_touches_three() {
    let mut b = Board::new(3, 3);
    b.place_mine(0);
    assert_eq!(b.get(0, 0), Some(&Cell::Mine));
    assert_eq!(b.get(1, 0), Some(&Cell::Count(1)));
    assert_eq!(b.get(0, 1), Some(&Cell::Count(1)));
    assert_eq!(b.get(1, 1), Some(&Cell::Count(1)));
    assert_eq!(b.get(2, 0), Some(&Cell::Count(0)));
    assert_eq!(b.get(2, 2), Some(&Cell::Count(0)));
}

#[test]
fn two_mines_add_up() {
    let mut b = Board::new(4, 2);
    b.place_mine(1);
    b.place_mine(2);
    assert_eq!(b.get(1, 0), Some(&Cell::Mine));
    assert_eq!(b.get(2, 0), Some(&Cell::Mine));
    assert_eq!(b.get(0, 0), Some(&Cell::Count(1)));
    assert_eq!(b.get(3, 0), Some(&Cell::Count(1)));
    assert_eq!(b.get(0, 1), Some(&Cell::Count(1)));
    assert_eq!(b.get(1, 1), Some(&Cell::Count(2)));
    assert_eq!(b.get(2, 1), Some(&Cell::Count(2)));
    assert_eq!(b.get(3, 1), Some(&Cell::Count(1)));
}

#[test]
fn interior_cell_surrounded_counts_eight() {
    let mut b = Board::new(3, 3);
    for pos in [0, 1, 2, 3, 5, 6, 7, 8] {
        b.place_mine(pos);
    }
    assert_eq!(b.get(1, 1), Some(&Cell::Count(8)));
}

#[test]
fn single_cell_board_generate() {
    let mut b = Board::new(1, 1);
    b.generate(1);
    assert_eq!(b.get(0, 0), Some(&Cell::Mine));
    assert_eq!(b.get(1, 0), None);
    assert_eq!(b.get(0, 1), None);
}

#[test]
fn generate_places_exact_count() {
    for k in [0, 1, 10, 47, 48] {
        let mut b = Board::new(8, 6);
        b.generate(k);
        assert_eq!(mines_on(&b), k);
        assert!(counts_agree(&b));
    }
}

#[test]
fn generate_changes_board() {
    let mut b = Board::new(5, 5);
    b.generate(3);
    assert_eq!(mines_on(&b), 3);
    assert!((0..5).any(|y| (0..5).any(|x| b.get(x, y) != Some(&Cell::Count(0)))));
}

#[test]
fn generate_twice_accumulates() {
    let mut b = Board::new(4, 4);
    b.generate(5);
    b.generate(6);
    assert_eq!(mines_on(&b), 11);
    assert!(counts_agree(&b));
    b.generate(5);
    assert_eq!(mines_on(&b), 16);
}

#[test]
fn resize_clears_board() {
    let mut b = Board::new(2, 2);
    b.generate(2);
    b.resize(5, 5);
    assert_eq!(b.width(), 5);
    assert_eq!(b.height(), 5);
    let mut n = 0;
    for y in 0..5 {
        for x in 0..5 {
            assert_eq!(b.get(x, y), Some(&Cell::Count(0)));
            n += 1;
        }
    }
    assert_eq!(n, 25);
    assert_eq!(b.get(5, 0), None);
}

#[test]
fn resize_keeps_cursor() {
    let mut b = Board::new(5, 5);
    b.cur_up();
    b.cur_left();
    assert_eq!(b.cursor(), (4, 4));
    b.resize(2, 2);
    assert_eq!(b.cursor(), (4, 4));
}

#[test]
fn cursor_wraps_up_and_left() {
    let mut b = Board::new(4, 3);
    b.cur_up();
    assert_eq!(b.cursor(), (0, 2));
    let mut b = Board::new(4, 3);
    b.cur_left();
    assert_eq!(b.cursor(), (3, 0));
}

#[test]
fn cursor_wraps_down() {
    let mut b = Board::new(4, 3);
    b.cur_up();
    b.cur_left();
    assert_eq!(b.cursor(), (3, 2));
    b.cur_down();
    assert_eq!(b.cursor(), (3, 0));
    b.cur_down();
    assert_eq!(b.cursor(), (3, 1));
}

#[test]
fn cursor_wraps_right_square() {
    let mut b = Board::new(3, 3);
    b.cur_left();
    assert_eq!(b.cursor(), (2, 0));
    b.cur_right();
    assert_eq!(b.cursor(), (0, 0));
}

#[test]
fn cursor_wraps_right_by_width() {
    // wide board: moving right past the height does not wrap early
    let mut b = Board::new(4, 2);
    b.cur_right();
    b.cur_right();
    assert_eq!(b.cursor(), (2, 0));
    b.cur_right();
    assert_eq!(b.cursor(), (3, 0));
    b.cur_right();
    assert_eq!(b.cursor(), (0, 0));
    // tall board: the cursor never leaves the grid
    let mut b = Board::new(2, 4);
    b.cur_right();
    assert_eq!(b.cursor(), (1, 0));
    b.cur_right();
    assert_eq!(b.cursor(), (0, 0));
}

#[test]
fn cursor_moves_inside() {
    let mut b = Board::new(3, 3);
    b.cur_down();
    b.cur_right();
    assert_eq!(b.cursor(), (1, 1));
    b.cur_up();
    b.cur_left();
    assert_eq!(b.cursor(), (0, 0));
}
