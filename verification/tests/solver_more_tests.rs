use std::str::FromStr;

use sudoku_solver::action::Action;
use sudoku_solver::action_set::ActionSet;
use sudoku_solver::cell::Cell;
use sudoku_solver::grid::Grid;
use sudoku_solver::methods::box_line_reduction::BoxLineReduction;
use sudoku_solver::methods::fishes::Fishes;
use sudoku_solver::methods::hidden_n::Hidden;
use sudoku_solver::methods::naked_n::Naked;
use sudoku_solver::methods::pointing_ns::Pointing;
use sudoku_solver::methods::simple_coloring::SimpleColoring;
use sudoku_solver::methods::Method;
use sudoku_solver::solver::Solver;

const SOLVED: &str =
    "735164928426978315198532674249381756387256149561749832852617493914823567673495281";
const OPEN: &str =
    "000004028406000005100030600000301000087000140000709000002010003900000507670400000";

fn every_method() -> Vec<Method> {
    vec![
        Method::Naked(Naked::Single),
        Method::Naked(Naked::Pair),
        Method::Naked(Naked::Triple),
        Method::Naked(Naked::Quad),
        Method::Hidden(Hidden::Single),
        Method::Hidden(Hidden::Pair),
        Method::Hidden(Hidden::Triple),
        Method::Hidden(Hidden::Quad),
        Method::Pointing(Pointing::Pair),
        Method::Pointing(Pointing::Triple),
        Method::BoxLineReduction(BoxLineReduction::Pair),
        Method::BoxLineReduction(BoxLineReduction::Triple),
        Method::Fishes(Fishes::XWing),
        Method::Fishes(Fishes::Swordfish),
        Method::Fishes(Fishes::Jellyfish),
        Method::SimpleColoring(SimpleColoring),
    ]
}

#[test]
fn solved_grid_needs_no_step() {
    let mut grid = Grid::from_str(SOLVED).unwrap();
    let solver = Solver::all_methods();

    assert!(grid.is_solved());
    assert_eq!(solver.take_step(&grid, true), ActionSet::new());
    assert_eq!(solver.take_step(&grid, false), ActionSet::new());
    assert_eq!(solver.try_solve(&mut grid), ActionSet::new());
    assert_eq!(grid, Grid::from_str(SOLVED).unwrap());
}

#[test]
fn no_method_proposes_anything_for_a_solved_grid() {
    let grid = Grid::from_str(SOLVED).unwrap();
    for method in every_method() {
        assert!(method.get_all_applications(&grid).is_empty());
        assert!(method.get_all_helpful_applications(&grid, true).is_empty());
    }
}

#[test]
fn methods_leave_the_grid_alone() {
    let grid = Grid::from_str(OPEN).unwrap();
    let before = grid.clone();
    for method in every_method() {
        let first = method.get_all_applications(&grid);
        let second = method.get_all_applications(&grid);
        assert_eq!(first, second);
    }
    assert_eq!(grid, before);
}

#[test]
fn try_solve_again_changes_nothing() {
    let solver = Solver::all_methods();
    let mut grid = Grid::from_str(OPEN).unwrap();
    let first = solver.try_solve(&mut grid);
    assert!(!first.is_empty());
    assert!(grid.is_solved());
    let second = solver.try_solve(&mut grid);
    assert!(second.is_empty());
    assert_eq!(grid, Grid::from_str(SOLVED).unwrap());
}

#[test]
fn try_solve_stops_when_stuck() {
    let mut solver = Solver::all_methods();
    for index in 0..solver.methods().len() {
        solver.set_state(index, false);
    }
    let mut grid = Grid::from_str(OPEN).unwrap();
    assert!(solver.try_solve(&mut grid).is_empty());
    assert_eq!(grid, Grid::from_str(OPEN).unwrap());
    assert!(!grid.is_solved());
}

#[test]
fn the_catalog() {
    let solver = Solver::all_methods();
    let names: Vec<&str> = solver.methods().iter().map(|(m, _)| m.name()).collect();
    assert_eq!(
        names,
        vec![
            "Naked Single",
            "Hidden Single",
            "Naked Pair",
            "Naked Triple",
            "Hidden Pair",
            "Hidden Triple",
            "Naked Quad",
            "Hidden Quad",
            "Pointing Pair",
            "Pointing Triple",
            "Box Line Reduction (for Pair)",
            "Box Line Reduction (for Triple)",
            "X-Wing",
            "Swordfish",
            "Jellyfish",
            "Simple Coloring",
        ]
    );
    assert!(solver.methods().iter().all(|(_, enabled)| *enabled));
}

#[test]
fn set_state_and_toggle() {
    let mut solver = Solver::all_methods();
    solver.set_state(0, false);
    assert_eq!(solver.methods()[0], (Method::Naked(Naked::Single), false));
    solver.set_state(0, false);
    assert_eq!(solver.methods()[0].1, false);
    solver.toggle(0);
    assert_eq!(solver.methods()[0].1, true);
    solver.toggle(1);
    assert_eq!(solver.methods()[1], (Method::Hidden(Hidden::Single), false));
    assert_eq!(solver.methods()[2].1, true);
    assert_eq!(solver.clone().methods(), solver.methods());
}

#[test]
fn disabled_methods_are_passed_over() {
    let grid = Grid::from_str(
        "300967001040302080020000070070000090000873000500010003004705100905000207800621004",
    )
    .unwrap();
    let mut solver = Solver::all_methods();
    let with_naked = solver.take_step(&grid, true);
    assert_eq!(
        with_naked,
        Method::Naked(Naked::Single).get_all_helpful_applications(&grid, true)
    );
    solver.set_state(0, false);
    let without = solver.take_step(&grid, true);
    assert_eq!(
        without,
        Method::Hidden(Hidden::Single).get_all_helpful_applications(&grid, true)
    );
    assert!(!without.is_empty());
}

#[test]
fn a_step_holds_helpful_actions_only() {
    let grid = Grid::from_str(OPEN).unwrap();
    let solver = Solver::all_methods();
    for stop in [true, false] {
        let step = solver.take_step(&grid, stop);
        assert!(!step.is_empty());
        for i in 0..step.len() {
            let action = step.get(i);
            assert!(action.is_helpful(&grid));
            let mut again = action.clone();
            again.simplify(&grid);
            assert_eq!(&again, action);
        }
    }
}

#[test]
fn action_made_twice() {
    let grid = Grid::from_str(OPEN).unwrap();
    let actions = vec![
        Action::RemovePencilmarks {
            figure: vec![4, 6].into(),
            pencilmarks: vec![7],
        },
        Action::RemovePencilmarks {
            figure: vec![0, 1, 2, 3, 4, 5, 6, 7, 8].into(),
            pencilmarks: vec![3, 5, 9],
        },
        Action::PreservePencilmarks {
            figure: vec![0, 1, 2].into(),
            pencilmarks: vec![3, 5],
        },
        Action::PlaceNumber {
            position: 0,
            number: 7,
        },
    ];
    for action in actions {
        assert!(action.is_helpful(&grid));
        let mut once = grid.clone();
        action.apply_to_grid(&mut once);
        assert_ne!(once, grid);
        assert!(!action.is_helpful(&once));
        let mut twice = once.clone();
        action.apply_to_grid(&mut twice);
        assert_eq!(twice, once);
    }
}

#[test]
fn action_sets_are_sets() {
    let place = |position: usize, number: u8| Action::PlaceNumber { position, number };
    let remove = |figure: Vec<usize>, pencilmarks: Vec<u8>| Action::RemovePencilmarks {
        figure: figure.into(),
        pencilmarks,
    };
    let preserve = |figure: Vec<usize>, pencilmarks: Vec<u8>| Action::PreservePencilmarks {
        figure: figure.into(),
        pencilmarks,
    };
    let mut set = ActionSet::new();
    assert!(set.is_empty());
    set.insert(preserve(vec![1, 2], vec![3]));
    set.insert(remove(vec![1, 3], vec![3]));
    set.insert(remove(vec![1, 2], vec![4]));
    set.insert(remove(vec![2, 1, 1], vec![3]));
    set.insert(place(9, 1));
    set.insert(place(2, 9));
    set.insert(place(2, 9));
    set.insert(remove(vec![1], vec![9]));
    assert_eq!(set.len(), 7);
    let listed: Vec<Action> = (0..set.len()).map(|i| set.get(i).clone()).collect();
    assert_eq!(
        listed,
        vec![
            place(2, 9),
            place(9, 1),
            remove(vec![1], vec![9]),
            remove(vec![1, 2], vec![3]),
            remove(vec![1, 2], vec![4]),
            remove(vec![1, 3], vec![3]),
            preserve(vec![1, 2], vec![3]),
        ]
    );
    let mut sorted = listed.clone();
    sorted.sort();
    assert_eq!(sorted, listed);

    let mut other = ActionSet::from(vec![place(2, 9), place(0, 1)]);
    other.extend(set.clone());
    assert_eq!(other.len(), 8);
    assert_eq!(other.get(0), &place(0, 1));
    assert_eq!(ActionSet::from(listed), set);
}

#[test]
fn box_line_pairs_are_thirteen() {
    let grid = Grid::from_str(
        "016007803090800000870001260048000300650009082039000650060900020080002936924600510",
    )
    .unwrap();
    let found = Method::BoxLineReduction(BoxLineReduction::Pair).get_all_applications(&grid);
    assert_eq!(found.len(), 13);
    let wanted = Action::RemovePencilmarks {
        figure: vec![1, 2, 10, 11, 18, 19, 20].into(),
        pencilmarks: vec![4],
    };
    assert!((0..found.len()).any(|i| found.get(i) == &wanted));
}

#[test]
fn fishes_need_enough_lines() {
    // one line with the digit in two places is no fish
    let mut cells = vec![Cell::Number(1); 81];
    cells[0] = Cell::Pencilmarks(vec![4, 5]);
    cells[9] = Cell::Pencilmarks(vec![4, 5]);
    let grid = Grid::from_cells(cells).unwrap();
    for fish in [Fishes::XWing, Fishes::Swordfish, Fishes::Jellyfish] {
        assert!(Method::Fishes(fish).get_all_applications(&grid).is_empty());
    }
    // two columns with the digit in the same two rows are an X-Wing
    let mut cells = vec![Cell::Number(1); 81];
    for p in [0, 5, 72, 77] {
        cells[p] = Cell::Pencilmarks(vec![4, 5]);
    }
    let grid = Grid::from_cells(cells).unwrap();
    let found = Method::Fishes(Fishes::XWing).get_all_applications(&grid);
    let rows: Vec<usize> = (0..9).chain(72..81).filter(|p| ![0, 5, 72, 77].contains(p)).collect();
    let cols: Vec<usize> = (0..81)
        .filter(|p| (p % 9 == 0 || p % 9 == 5) && ![0, 5, 72, 77].contains(p))
        .collect();
    let mut wanted = Vec::new();
    for digit in [4u8, 5] {
        wanted.push(Action::RemovePencilmarks {
            figure: rows.clone().into(),
            pencilmarks: vec![digit],
        });
        wanted.push(Action::RemovePencilmarks {
            figure: cols.clone().into(),
            pencilmarks: vec![digit],
        });
    }
    assert_eq!(found, ActionSet::from(wanted));
    assert!(Method::Fishes(Fishes::Swordfish).get_all_applications(&grid).is_empty());
}

#[test]
fn chains_of_one_and_two_links() {
    // a single cell with candidates is a chain of one link: no rule applies
    let mut cells = vec![Cell::Number(1); 81];
    cells[40] = Cell::Pencilmarks(vec![4, 5]);
    let grid = Grid::from_cells(cells).unwrap();
    assert!(Method::SimpleColoring(SimpleColoring)
        .get_all_applications(&grid)
        .is_empty());

    // two cells of a row that alone hold a digit are linked and get
    // different colours: the digit leaves the cells that see both
    let mut cells = vec![Cell::Number(1); 81];
    cells[0] = Cell::Pencilmarks(vec![4, 5]);
    cells[5] = Cell::Pencilmarks(vec![4, 5]);
    let grid = Grid::from_cells(cells).unwrap();
    let found = Method::SimpleColoring(SimpleColoring).get_all_applications(&grid);
    assert_eq!(
        found,
        ActionSet::from(vec![
            Action::RemovePencilmarks {
                figure: vec![1, 2, 3, 4, 6, 7, 8].into(),
                pencilmarks: vec![4],
            },
            Action::RemovePencilmarks {
                figure: vec![1, 2, 3, 4, 6, 7, 8].into(),
                pencilmarks: vec![5],
            },
        ])
    );
    // none of them changes the grid
    assert!(Method::SimpleColoring(SimpleColoring)
        .get_all_helpful_applications(&grid, true)
        .is_empty());
}

#[test]
fn solvers_compare_by_their_lists() {
    let mut solver = Solver::all_methods();
    assert_eq!(solver, Solver::all_methods());
    solver.toggle(3);
    assert_ne!(solver, Solver::all_methods());
    solver.toggle(3);
    assert_eq!(solver, Solver::all_methods());
}

#[test]
fn solving_never_adds_a_candidate() {
    let solver = Solver::all_methods();
    let start = Grid::from_str(
        "000000700007109000680070010001090600000300021040000003008060100500000040000002005",
    )
    .unwrap();
    let mut grid = start.clone();
    solver.try_solve(&mut grid);
    for q in 0..81 {
        if let Cell::Pencilmarks(after) = &grid[q] {
            match &start[q] {
                Cell::Pencilmarks(before) => assert!(after.iter().all(|d| before.contains(d))),
                Cell::Number(_) => panic!("a solved cell has candidates again"),
            }
        }
    }
    // where the solver stops, it is solved or no method proposes anything
    assert!(grid.is_solved() || solver.take_step(&grid, true).is_empty());
}
