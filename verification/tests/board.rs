use game_of_life::board::{Board, BoardError, Cell};

fn dead_canvas(n: usize) -> Vec<Cell> {
    vec![Cell::Dead; n]
}

fn new_board(
    pattern: Vec<Cell>,
    pattern_size: (usize, usize),
    canvas: (usize, usize),
    at: (usize, usize),
) -> Board {
    Board::new(pattern, pattern_size, canvas, at).expect("board should construct")
}

#[test]
fn embedding_on_ten_by_ten() {
    let board = new_board(vec![Cell::Alive; 9], (3, 3), (10, 10), (2, 2));
    assert_eq!(board.width, 10);
    assert_eq!(board.cells.len(), 100);
    for r in 0..10 {
        for c in 0..10 {
            let inside = (2..5).contains(&r) && (2..5).contains(&c);
            let expected = if inside { Cell::Alive } else { Cell::Dead };
            assert_eq!(board.cells[r * 10 + c], expected, "cell ({}, {})", r, c);
        }
    }
}

#[test]
fn embedding_at_origin() {
    let board = new_board(vec![Cell::Alive, Cell::Dead], (2, 1), (3, 2), (0, 0));
    assert_eq!(
        board.cells,
        vec![
            Cell::Alive,
            Cell::Dead,
            Cell::Dead,
            Cell::Dead,
            Cell::Dead,
            Cell::Dead,
        ]
    );
}

#[test]
fn construction_rejects_zero_canvas() {
    assert_eq!(
        Board::new(Vec::new(), (0, 0), (0, 5), (0, 0)),
        Err(BoardError::DegenerateGrid)
    );
    assert_eq!(
        Board::new(Vec::new(), (0, 0), (5, 0), (0, 0)),
        Err(BoardError::DegenerateGrid)
    );
}

#[test]
fn construction_rejects_out_of_bounds_placement() {
    // A 3x3 pattern at offset (8, 0) does not fit a 10x10 canvas.
    assert_eq!(
        Board::new(vec![Cell::Alive; 9], (3, 3), (10, 10), (8, 0)),
        Err(BoardError::Placement)
    );
    assert_eq!(
        Board::new(vec![Cell::Alive; 9], (3, 3), (10, 10), (0, 8)),
        Err(BoardError::Placement)
    );
}

#[test]
fn construction_rejects_mismatched_pattern_size() {
    // 8 cells cannot be a 3x3 matrix.
    assert_eq!(
        Board::new(vec![Cell::Alive; 8], (3, 3), (10, 10), (0, 0)),
        Err(BoardError::PatternSize)
    );
}

#[test]
fn conway_rule_exhaustive() {
    // For every current state and every live neighbor count 0..=8,
    // the center of a 3x3 board follows the transition table.
    for &center in &[Cell::Alive, Cell::Dead] {
        for live in 0..=8 {
            let mut cells = dead_canvas(9);
            cells[4] = center;
            let neighbor_positions = [0, 1, 2, 3, 5, 6, 7, 8];
            for &p in neighbor_positions.iter().take(live) {
                cells[p] = Cell::Alive;
            }
            let board = new_board(cells, (3, 3), (3, 3), (0, 0));
            let next = board.next_cell(4);
            let expected = match center {
                Cell::Alive if live == 2 || live == 3 => Cell::Alive,
                Cell::Dead if live == 3 => Cell::Alive,
                _ => Cell::Dead,
            };
            assert_eq!(next, expected, "center {:?} with {} live", center, live);
        }
    }
}

#[test]
fn interior_cell_has_eight_neighbours() {
    let board = new_board(dead_canvas(9), (3, 3), (3, 3), (0, 0));
    let ns = board.neighbours(4);
    assert_eq!(ns.len(), 8);
    for &j in &ns {
        assert!(j < 9);
        assert_ne!(j, 4);
    }
    assert_eq!(ns, vec![0, 1, 2, 3, 5, 6, 7, 8]);
}

#[test]
fn corner_cells_have_three_neighbours() {
    // A 4-wide, 5-tall board: corners are 0, 3, 16, 19.
    let board = new_board(dead_canvas(20), (4, 5), (4, 5), (0, 0));
    for corner in [0, 3, 16, 19] {
        assert_eq!(board.neighbours(corner).len(), 3, "corner {}", corner);
    }
    assert_eq!(board.neighbours(0), vec![1, 4, 5]);
}

#[test]
fn edge_cells_have_five_neighbours() {
    let board = new_board(dead_canvas(20), (4, 5), (4, 5), (0, 0));
    // Top edge, bottom edge, left edge, right edge (non-corner).
    for edge in [1, 17, 8, 11] {
        assert_eq!(board.neighbours(edge).len(), 5, "edge {}", edge);
    }
}

#[test]
fn single_cell_board_has_no_neighbours() {
    let board = new_board(vec![Cell::Alive], (1, 1), (1, 1), (0, 0));
    assert_eq!(board.neighbours(0), Vec::<usize>::new());
}

#[test]
fn strip_boards_have_two_neighbours_inside() {
    // A single-column board: only the cells above and below.
    let column = new_board(dead_canvas(4), (1, 4), (1, 4), (0, 0));
    assert_eq!(column.neighbours(2), vec![1, 3]);
    // A single-row board: only the cells left and right.
    let row = new_board(dead_canvas(4), (4, 1), (4, 1), (0, 0));
    assert_eq!(row.neighbours(2), vec![1, 3]);
}

#[test]
fn block_still_life_is_unchanged() {
    // A 2x2 block of Alive cells surrounded by Dead cells.
    let mut board = new_board(vec![Cell::Alive; 4], (2, 2), (4, 4), (1, 1));
    let before = board.cells.clone();
    board.next_board();
    assert_eq!(board.cells, before);
    board.next_board();
    assert_eq!(board.cells, before);
}

#[test]
fn blinker_oscillates_with_period_two() {
    // Three Alive cells in a row return to the start after 2 steps.
    let mut board = new_board(vec![Cell::Alive; 3], (3, 1), (5, 5), (1, 2));
    let start = board.cells.clone();
    board.next_board();
    assert_ne!(board.cells, start);
    // After one step the blinker stands vertically in the middle.
    let upright = new_board(vec![Cell::Alive; 3], (1, 3), (5, 5), (2, 1));
    assert_eq!(board.cells, upright.cells);
    board.next_board();
    assert_eq!(board.cells, start);
}

#[test]
fn isolated_cell_goes_extinct() {
    let mut board = new_board(vec![Cell::Alive], (1, 1), (5, 5), (2, 2));
    board.next_board();
    assert!(board.cells.iter().all(|c| *c == Cell::Dead));
    board.next_board();
    assert!(board.cells.iter().all(|c| *c == Cell::Dead));
}

#[test]
fn cell_count_is_constant_across_generations() {
    let mut board = new_board(vec![Cell::Alive; 9], (3, 3), (6, 6), (1, 1));
    assert_eq!(board.cells.len(), 36);
    for _ in 0..5 {
        board.next_board();
        assert_eq!(board.cells.len(), 36);
        assert_eq!(board.width, 6);
    }
}

#[test]
fn glider_translates_after_four_steps() {
    // The glider .O. / ..O / OOO moves one cell down-right every
    // four generations on an open board.
    let glider = vec![
        Cell::Dead,
        Cell::Alive,
        Cell::Dead,
        Cell::Dead,
        Cell::Dead,
        Cell::Alive,
        Cell::Alive,
        Cell::Alive,
        Cell::Alive,
    ];
    let mut board = new_board(glider.clone(), (3, 3), (10, 10), (2, 2));
    for _ in 0..4 {
        board.next_board();
    }
    let moved = new_board(glider, (3, 3), (10, 10), (3, 3));
    assert_eq!(board.cells, moved.cells);
}

#[test]
fn height_is_rows() {
    let board = new_board(dead_canvas(20), (4, 5), (4, 5), (0, 0));
    assert_eq!(board.height(), 5);
}

#[test]
fn render_draws_rows_with_leading_newline() {
    let mut cells = dead_canvas(6);
    cells[0] = Cell::Alive;
    cells[4] = Cell::Alive;
    let board = new_board(cells, (3, 2), (3, 2), (0, 0));
    assert_eq!(board.render(), b"\n0  \n 0 ".to_vec());
}
