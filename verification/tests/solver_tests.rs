use std::str::FromStr;

use sudoku_solver::action::Action;
use sudoku_solver::action_set::ActionSet;
use sudoku_solver::grid::Grid;
use sudoku_solver::solver::Solver;

#[test]
fn take_step() {
    let solver = Solver::all_methods();

    {
        let easiest_grid = Grid::from_str(
            "300967001040302080020000070070000090000873000500010003004705100905000207800621004",
        )
        .unwrap();

        let actions = solver.take_step(&easiest_grid, true);
        let predictions = vec![
            Action::PlaceNumber {
                position: 2,
                number: 8,
            },
            Action::PlaceNumber {
                position: 13,
                number: 5,
            },
            Action::PlaceNumber {
                position: 66,
                number: 4,
            },
            Action::PlaceNumber {
                position: 73,
                number: 3,
            },
        ];

        assert_eq!(actions, ActionSet::from(predictions));
    }
    {
        let multiple_actions_grid = Grid::from_str(
            "000000700007109000680070010001090600000300020040000003008060100500000040000002005",
        )
        .unwrap();

        let actions = solver.take_step(&multiple_actions_grid, false);
        let predictions = vec![
            Action::PlaceNumber {
                position: 44,
                number: 1,
            },
            Action::RemovePencilmarks {
                figure: vec![7, 8].into(),
                pencilmarks: vec![6],
            },
            Action::RemovePencilmarks {
                figure: vec![40, 41].into(),
                pencilmarks: vec![1],
            },
        ];

        assert_eq!(actions, ActionSet::from(predictions));
    }
    {
        let mut hard_grid = Grid::from_str(
            "000000700007109000680070010001090600000300021040000003008060100500000040000002005",
        )
        .unwrap();

        hard_grid.set_pencilmarks(7, vec![3, 5, 8, 9]);
        hard_grid.set_pencilmarks(8, vec![2, 4, 8, 9]);

        let actions = solver.take_step(&hard_grid, true);

        assert_eq!(actions, ActionSet::new());
    }
}

#[test]
fn try_solve() {
    let mut grid = Grid::from_str(
        "000004028406000005100030600000301000087000140000709000002010003900000507670400000",
    )
    .unwrap();
    let _actions = Solver::all_methods().try_solve(&mut grid);

    assert_eq!(
        grid,
        Grid::from_str(
            "735164928426978315198532674249381756387256149561749832852617493914823567673495281"
        )
        .unwrap()
    );
}

