use std::collections::HashMap;
use std::str::FromStr;

use sudoku_solver::cell::Cell;
use sudoku_solver::figure::Figure;
use sudoku_solver::grid::{Grid, ParseGridError};

fn cells_of(grid: &Grid) -> Vec<Cell> {
    (0..81).map(|i| grid[i].clone()).collect()
}

fn line_of(grid: &Grid) -> String {
    (0..81)
        .map(|i| match grid.get(i) {
            Cell::Number(n) => (b'0' + *n) as char,
            Cell::Pencilmarks(_) => '0',
        })
        .collect()
}

#[test]
fn init_string_size_is_too_small() {
    let grid = Grid::from_str(
        "40100305000060508489540013603006040590005030005000120024050000700900050050009200",
    );
    assert_eq!(grid, Err(ParseGridError::InvalidSize(80)));
}

#[test]
fn init_string_size_is_too_big() {
    let grid = Grid::from_str(
        "4010030500006050848954001360300604059000503000500012002405000070090005005000920001234",
    );
    assert_eq!(grid, Err(ParseGridError::InvalidSize(85)));
}

#[test]
fn init_string_chars_are_invalid() {
    let grid = Grid::from_str(
        "4 1  3 5    6 5 848954  136 3  6 4 59   5 3   5   120 24 5    7  9   5  5   92   ",
    );
    assert_eq!(grid, Err(ParseGridError::InvalidCharacter(1)));
}

#[test]
fn init_string_is_ok() {
    let grid = Grid::from_str(
        "401003050000605084895400136030060405900050300050001200240500007009000500500092000",
    )
    .unwrap();

    assert_eq!(grid[8], Cell::Pencilmarks([2, 9].to_vec()));
    assert_eq!(grid[38], Cell::Pencilmarks([2, 4, 6, 7, 8].to_vec()));
    assert_eq!(grid[80], Cell::Pencilmarks([1, 3, 8].to_vec()));

    assert_eq!(grid[0], Cell::Number(4));
    assert_eq!(grid[2], Cell::Number(1));
    assert_eq!(grid[26], Cell::Number(6));
    assert_eq!(grid[36], Cell::Number(9));
}

#[test]
fn set_number() {
    let mut grid = Grid::from_str(
        "000004028406000005100030600000301000087000140000709000002010003900000507670400000",
    )
    .unwrap();

    grid.set_number(40, 5);

    let grid_should_be = Grid::from_str(
        "000004028406000005100030600000301000087050140000709000002010003900000507670400000",
    )
    .unwrap();

    assert_eq!(grid, grid_should_be);
}

#[test]
fn set_pencilmarks() {
    let mut grid = Grid::from_str(
        "000004028406000005100030600000301000087000140000709000002010003900000507670400000",
    )
    .unwrap();

    let mut cells = cells_of(&grid);

    grid.set_pencilmarks(40, vec![2, 5]);

    cells[40] = Cell::Pencilmarks(vec![2, 5]);
    let grid_should_be = Grid::from_cells(cells).unwrap();

    assert_eq!(grid, grid_should_be);
}

#[test]
fn update_cell_neighbours() {
    let grid = Grid::from_str(
        "000004028406000005100030600000301000087000140000709000002010003900000507670400000",
    )
    .unwrap();

    // Placed by hand, so that the neighbours do not change
    let mut cells = cells_of(&grid);
    cells[40] = Cell::Number(5);
    let mut grid = Grid::from_cells(cells).unwrap();

    let mut grid_should_be = grid.clone();

    // Column
    grid_should_be.set_pencilmarks(4, vec![6, 7, 9]);
    grid_should_be.set_pencilmarks(13, vec![2, 7, 8, 9]);
    grid_should_be.set_pencilmarks(31, vec![2, 4, 6, 8]);
    grid_should_be.set_pencilmarks(49, vec![2, 4, 6, 8]);
    grid_should_be.set_pencilmarks(67, vec![2, 6, 8]);
    grid_should_be.set_pencilmarks(76, vec![2, 8, 9]);
    // Row
    grid_should_be.set_pencilmarks(36, vec![2, 3]);
    grid_should_be.set_pencilmarks(39, vec![2, 6]);
    grid_should_be.set_pencilmarks(41, vec![2, 6]);
    grid_should_be.set_pencilmarks(44, vec![2, 6, 9]);
    // Square (31, 39, 41, 49) - already done

    grid.update_cell_neighbours(40);

    assert_eq!(grid, grid_should_be);
}

#[test]
fn pencilmarks_info() {
    let grid = Grid::from_str(
        "000004028406000005100030600000301000087000140000709000002010003900000507670400000",
    )
    .unwrap();

    let info = grid.pencilmarks_info(Figure::row(0));

    assert_eq!(
        info,
        HashMap::from([
            (1, vec![3]),
            (3, vec![0, 1, 2, 6]),
            (5, vec![0, 1, 2, 3, 4]),
            (6, vec![3, 4]),
            (7, vec![0, 4, 6]),
            (9, vec![1, 2, 3, 4, 6]),
        ])
    );
}

#[test]
fn is_solved() {
    let unsolved_grid = Grid::from_str(
        "007010000000800500180009064600000003071080640400000005840600031005002000000030700",
    )
    .unwrap();
    let solved_grid = Grid::from_str(
        "567314928394826517182759364658247193971583642423961875849675231735192486216438759",
    )
    .unwrap();

    assert!(!unsolved_grid.is_solved());
    assert!(solved_grid.is_solved());
}

#[test]
fn parse_reads_bytes_like_text() {
    let line = "401003050000605084895400136030060405900050300050001200240500007009000500500092000";
    assert_eq!(Grid::parse(line), Grid::from_str(line));
    assert_eq!(Grid::parse_bytes(line.as_bytes()), Grid::from_str(line));
    assert_eq!(Grid::parse(""), Err(ParseGridError::InvalidSize(0)));
    // 81 bytes, of which the last two are one character that is no digit
    let odd = format!("{}\u{e9}", "1".repeat(79));
    assert_eq!(odd.len(), 81);
    assert_eq!(Grid::parse(&odd), Err(ParseGridError::InvalidCharacter(79)));
    // the first byte that is no digit is reported
    let two = format!("12a4b{}", "0".repeat(76));
    assert_eq!(Grid::parse(&two), Err(ParseGridError::InvalidCharacter(2)));
}

#[test]
fn parse_round_trip() {
    for line in [
        "401003050000605084895400136030060405900050300050001200240500007009000500500092000",
        "000004028406000005100030600000301000087000140000709000002010003900000507670400000",
        "567314928394826517182759364658247193971583642423961875849675231735192486216438759",
        "000000000000000000000000000000000000000000000000000000000000000000000000000000000",
    ] {
        let grid = Grid::parse(line).unwrap();
        assert_eq!(line_of(&grid), line);
    }
}

#[test]
fn parse_strikes_the_givens_out() {
    let grid = Grid::parse(
        "500000000000000000000000000000000000000000000000000000000000000000000000000000000",
    )
    .unwrap();
    assert_eq!(grid[0], Cell::Number(5));
    // row, column and box of the given lose the digit
    assert_eq!(grid[8], Cell::Pencilmarks(vec![1, 2, 3, 4, 6, 7, 8, 9]));
    assert_eq!(grid[72], Cell::Pencilmarks(vec![1, 2, 3, 4, 6, 7, 8, 9]));
    assert_eq!(grid[20], Cell::Pencilmarks(vec![1, 2, 3, 4, 6, 7, 8, 9]));
    // a cell that the given does not see keeps every digit
    assert_eq!(grid[40], Cell::all_pencilmarks());
}

#[test]
fn set_number_clears_every_neighbour() {
    for position in [0usize, 13, 40, 80] {
        for digit in 1..=9u8 {
            let mut grid = Grid::parse(
                "000000000000000000000000000000000000000000000000000000000000000000000000000000000",
            )
            .unwrap();
            grid.set_number(position, digit);
            assert_eq!(grid[position], Cell::Number(digit));
            for q in Figure::neighbours(position).positions() {
                if let Cell::Pencilmarks(p) = &grid[*q] {
                    assert!(!p.contains(&digit));
                }
            }
            assert_eq!(grid[if position == 40 { 0 } else { 40 }].is_pencilmarks(), true);
        }
    }
}

#[test]
fn from_cells_needs_81_cells() {
    assert!(Grid::from_cells(vec![]).is_none());
    assert!(Grid::from_cells(vec![Cell::Number(1); 80]).is_none());
    let grid = Grid::from_cells(vec![Cell::Number(1); 81]).unwrap();
    assert!(grid.is_solved());
    assert_eq!(*grid.get(80), Cell::Number(1));
}

#[test]
fn pencilmarks_info_of_a_solved_figure_is_empty() {
    let grid = Grid::from_str(
        "567314928394826517182759364658247193971583642423961875849675231735192486216438759",
    )
    .unwrap();
    assert!(grid.pencilmarks_info(Figure::all_cells()).is_empty());
}

#[test]
fn from_cells_takes_no_repeated_candidate() {
    let mut cells = vec![Cell::Number(1); 81];
    cells[7] = Cell::Pencilmarks(vec![4, 5, 4]);
    assert!(Grid::from_cells(cells).is_none());
    let mut cells = vec![Cell::Number(1); 81];
    cells[7] = Cell::Pencilmarks(vec![4, 5]);
    cells[8] = Cell::Pencilmarks(vec![]);
    let grid = Grid::from_cells(cells).unwrap();
    let info = grid.pencilmarks_info(Figure::row(0));
    assert_eq!(info, HashMap::from([(4, vec![7]), (5, vec![7])]));
}

#[test]
fn from_cells_takes_digits_only() {
    let mut cells = vec![Cell::Number(1); 81];
    cells[3] = Cell::Number(0);
    assert!(Grid::from_cells(cells).is_none());
    let mut cells = vec![Cell::Number(9); 81];
    cells[3] = Cell::Pencilmarks(vec![1, 10]);
    assert!(Grid::from_cells(cells).is_none());
    let mut cells = vec![Cell::Number(9); 81];
    cells[3] = Cell::Pencilmarks(vec![9, 1, 5]);
    assert!(Grid::from_cells(cells).is_some());
}
