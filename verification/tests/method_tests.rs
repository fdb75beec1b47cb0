use std::str::FromStr;

use sudoku_solver::action::Action;
use sudoku_solver::action_set::ActionSet;
use sudoku_solver::cell::Cell;
use sudoku_solver::grid::Grid;
use sudoku_solver::methods::box_line_reduction::BoxLineReduction;
use sudoku_solver::methods::fishes::Fishes;
use sudoku_solver::methods::hidden_n::Hidden;
use sudoku_solver::methods::naked_n::Naked;
use sudoku_solver::methods::pointing_ns::Pointing;
use sudoku_solver::methods::simple_coloring::SimpleColoring;
use sudoku_solver::methods::Method;

fn test_method(grid: &str, creator: Method, valid_candidates: Vec<Action>) {
    let grid = Grid::from_str(grid).unwrap();

    let candidates = creator.get_all_applications(&grid);

    assert_eq!(candidates, ActionSet::from(valid_candidates));
}

fn test(grid: &str, predictions: Vec<Action>) {
    let grid = Grid::from_str(grid).unwrap();

    let actions = Method::SimpleColoring(SimpleColoring {}).get_all_helpful_applications(&grid, false);

    assert_eq!(actions, ActionSet::from(predictions));
}

#[test]
fn box_line_reduction_2_cells() {
    test_method(
        "016007803090800000870001260048000300650009082039000650060900020080002936924600510",
        Method::BoxLineReduction(BoxLineReduction::Pair),
        vec![
            Action::RemovePencilmarks {
                figure: vec![1, 2, 10, 11, 18, 19, 20].into(),
                pencilmarks: vec![4],
            },
            Action::RemovePencilmarks {
                figure: vec![3, 4, 5, 12, 21, 22, 23].into(),
                pencilmarks: vec![6],
            },
            Action::RemovePencilmarks {
                figure: vec![3, 5, 12, 13, 14, 21, 23].into(),
                pencilmarks: vec![9],
            },
            Action::RemovePencilmarks {
                figure: vec![6, 7, 8, 15, 16, 24, 25].into(),
                pencilmarks: vec![5],
            },
            Action::RemovePencilmarks {
                figure: vec![6, 7, 8, 16, 24, 25, 26].into(),
                pencilmarks: vec![1],
            },
            Action::RemovePencilmarks {
                figure: vec![6, 8, 15, 17, 24, 25, 26].into(),
                pencilmarks: vec![4],
            },
            Action::RemovePencilmarks {
                figure: vec![30, 31, 32, 39, 40, 41, 48].into(),
                pencilmarks: vec![8],
            },
            Action::RemovePencilmarks {
                figure: vec![30, 31, 32, 41, 48, 49, 50].into(),
                pencilmarks: vec![3],
            },
            Action::RemovePencilmarks {
                figure: vec![30, 39, 40, 41, 48, 49, 50].into(),
                pencilmarks: vec![6],
            },
            Action::RemovePencilmarks {
                figure: vec![33, 42, 43, 44, 51, 52, 53].into(),
                pencilmarks: vec![9],
            },
            Action::RemovePencilmarks {
                figure: vec![57, 58, 59, 66, 67, 68, 75].into(),
                pencilmarks: vec![3],
            },
            Action::RemovePencilmarks {
                figure: vec![57, 58, 59, 68, 75, 76, 77].into(),
                pencilmarks: vec![4],
            },
            Action::RemovePencilmarks {
                figure: vec![60, 61, 69, 70, 71, 78, 79].into(),
                pencilmarks: vec![8],
            },
        ],
    );
}

#[test]
fn box_line_reduction_3_cells() {
    test_method(
        "020943715904000600750000040500480000200000453400352000042000081005004260090208504",
        Method::BoxLineReduction(BoxLineReduction::Triple),
        vec![
            Action::RemovePencilmarks {
                figure: vec![3, 4, 5, 21, 22, 23].into(),
                pencilmarks: vec![7],
            },
            Action::RemovePencilmarks {
                figure: vec![27, 28, 36, 37, 45, 46].into(),
                pencilmarks: vec![9],
            },
            Action::RemovePencilmarks {
                figure: vec![27, 29, 36, 38, 45, 47].into(),
                pencilmarks: vec![6],
            },
            Action::RemovePencilmarks {
                figure: vec![55, 56, 64, 65, 73, 74].into(),
                pencilmarks: vec![3],
            },
            Action::RemovePencilmarks {
                figure: vec![57, 59, 66, 68, 75, 77].into(),
                pencilmarks: vec![3],
            },
            Action::RemovePencilmarks {
                figure: vec![66, 67, 68, 75, 76, 77].into(),
                pencilmarks: vec![7],
            },
        ],
    );
}

#[test]
fn fishes_x_wing() {
    test_method(
        "100000569492056108056109240009640801064010000218035604040500016905061402621000005",
        Method::Fishes(Fishes::XWing),
        vec![
            Action::RemovePencilmarks {
                figure: vec![0, 1, 2, 4, 6, 7, 8, 72, 73, 74, 76, 78, 79, 80].into(),
                pencilmarks: vec![4],
            },
            Action::RemovePencilmarks {
                figure: vec![0, 7, 9, 16, 18, 25, 45, 52, 54, 61, 63, 70, 72, 79].into(),
                pencilmarks: vec![5],
            },
            Action::RemovePencilmarks {
                figure: vec![3, 7, 21, 25, 30, 34, 39, 43, 57, 61, 66, 70, 75, 79].into(),
                pencilmarks: vec![7],
            },
            Action::RemovePencilmarks {
                figure: vec![12, 14, 21, 23, 30, 32, 39, 41, 48, 50, 57, 59, 66, 68].into(),
                pencilmarks: vec![4],
            },
            Action::RemovePencilmarks {
                figure: vec![28, 29, 30, 31, 32, 33, 35, 37, 38, 39, 40, 41, 42, 44].into(),
                pencilmarks: vec![5],
            },
        ],
    );

    test_method(
        "000000094760910050090002081070050010000709000080031067240100070010090045900000100",
        Method::Fishes(Fishes::XWing),
        vec![
            Action::RemovePencilmarks {
                figure: vec![1, 3, 4, 5, 6, 7, 8, 37, 39, 40, 41, 42, 43, 44].into(),
                pencilmarks: vec![1],
            },
            Action::RemovePencilmarks {
                figure: vec![9, 11, 18, 20, 27, 29, 45, 47, 54, 56, 63, 65, 72, 74].into(),
                pencilmarks: vec![1],
            },
            Action::RemovePencilmarks {
                figure: vec![36, 37, 38, 39, 41, 42, 44, 72, 73, 74, 75, 77, 78, 80].into(),
                pencilmarks: vec![2],
            },
        ],
    )
}

#[test]
fn swordfish() {
    test_method(
        "529410703006003002003200000052300076637050200190627530300069420200830600960742305",
        Method::Fishes(Fishes::Swordfish),
        vec![Action::RemovePencilmarks {
                figure: vec![ 10, 11, 12, 14, 16, 17, 19, 20, 21, 23, 25, 26, 28, 29, 30, 32, 34, 35, ].into(),
                pencilmarks: vec![8],
            }],
    );

    test_method(
        "926000100537010420841000603259734816714060030368120040102000084485071360603000001",
        Method::Fishes(Fishes::Swordfish),
        vec![Action::RemovePencilmarks {
                figure: vec![ 18, 19, 20, 21, 23, 24, 26, 54, 56, 57, 59, 60, 61, 62, 72, 74, 75, 77, 78, 80, ].into(),
                pencilmarks: vec![9],
            }],
    );

    test_method(
        "020043069003896200960025030890560013600030000030081026300010070009674302270358090",
        Method::Fishes(Fishes::Swordfish),
        vec![
            Action::RemovePencilmarks {
                figure: vec![ 2, 3, 5, 11, 12, 14, 20, 21, 23, 30, 47, 48, 50, 56, 65, 66, 68, 74, 75, 77, ].into(),
                pencilmarks: vec![2],
            },
            Action::RemovePencilmarks {
                figure: vec![ 2, 6, 8, 11, 15, 17, 35, 38, 42, 44, 47, 51, 53, 56, 60, 62, 65, 69, 71, ].into(),
                pencilmarks: vec![4],
            },
            Action::RemovePencilmarks {
                figure: vec![ 3, 5, 6, 12, 14, 15, 21, 23, 24, 30, 32, 33, 50, 60, 66, 68, 69, 75, 77, 78, ].into(),
                pencilmarks: vec![9],
            },
            Action::RemovePencilmarks {
                figure: vec![ 10, 11, 12, 13, 14, 15, 17, 36, 37, 38, 40, 41, 42, 44, 46, 47, 49, 50, 51, 52, 53, ].into(),
                pencilmarks: vec![4],
            },
            Action::RemovePencilmarks {
                figure: vec![ 27, 28, 30, 31, 33, 34, 35, 36, 37, 40, 42, 43, 44, 54, 55, 56, 58, 60, 61, 62, ].into(),
                pencilmarks: vec![2],
            },
            Action::RemovePencilmarks {
                figure: vec![ 36, 37, 38, 40, 43, 44, 45, 46, 47, 49, 50, 52, 53, 54, 55, 56, 58, 60, 61, 62, ].into(),
                pencilmarks: vec![9],
            },
        ],
    );
}

#[test]
fn jellyfish() {
    let mut grid = Grid::from_str(
        "050749080089003000600001390040007060000400809000000000060004010500210047010005030",
    )
    .unwrap();

    grid.set_pencilmarks(15, vec![4, 7]);
    grid.set_pencilmarks(51, vec![4, 7]);

    grid.set_pencilmarks(31, vec![3, 5, 8, 9]);
    grid.set_pencilmarks(40, vec![3, 5, 6]);
    grid.set_pencilmarks(49, vec![3, 5, 6, 8, 9]);

    grid.set_pencilmarks(54, vec![2, 7, 8, 9]);
    grid.set_pencilmarks(56, vec![2, 7, 8]);

    grid.set_pencilmarks(17, vec![1, 2, 4, 5]);

    grid.set_pencilmarks(9, vec![1, 2, 4]);

    let actions = Method::Fishes(Fishes::Jellyfish).get_all_applications(&grid);

    let assertion = vec![
        Action::RemovePencilmarks {
                figure: vec![ 10, 11, 12, 13, 14, 16, 18, 19, 21, 22, 23, 24, 25, 45, 46, 47, 48, 49, 50, 52, 73, 75, 76, 77, 78, 79, 80, ].into(),
                pencilmarks: vec![4],
            },
        Action::RemovePencilmarks {
                figure: vec![ 9, 10, 11, 12, 14, 15, 17, 18, 20, 21, 23, 24, 25, 26, 36, 38, 39, 40, 42, 44, 45, 47, 48, 49, 51, 53, ].into(),
                pencilmarks: vec![2],
            },
        Action::RemovePencilmarks {
                figure: vec![ 9, 11, 15, 17, 18, 20, 24, 26, 36, 38, 42, 44, 45, 47, 51, 53, 63, 65, 69, 71, ].into(),
                pencilmarks: vec![2],
            },
        Action::RemovePencilmarks {
                figure: vec![ 0, 2, 6, 8, 11, 18, 24, 27, 29, 33, 35, 36, 38, 42, 44, 45, 47, 54, 56, 60, 62, 63, 65, 69, 71, 78, 80, ].into(),
                pencilmarks: vec![4],
            },
    ];

    assert_eq!(actions, ActionSet::from(assertion));
}

#[test]
fn get_and_apply_single() {
    test_method(
        "000004028406000005100030600000301000087000140000709000002010003900000507670400000",
        Method::Hidden(Hidden::Single),
        vec![
            Action::PlaceNumber {
                position: 0,
                number: 7,
            },
            Action::PlaceNumber {
                position: 3,
                number: 1,
            },
            Action::PlaceNumber {
                position: 16,
                number: 1,
            },
            Action::PlaceNumber {
                position: 20,
                number: 8,
            },
            Action::PlaceNumber {
                position: 26,
                number: 4,
            },
            Action::PlaceNumber {
                position: 36,
                number: 3,
            },
            Action::PlaceNumber {
                position: 44,
                number: 9,
            },
            Action::PlaceNumber {
                position: 54,
                number: 8,
            },
            Action::PlaceNumber {
                position: 59,
                number: 7,
            },
            Action::PlaceNumber {
                position: 60,
                number: 4,
            },
            Action::PlaceNumber {
                position: 80,
                number: 1,
            },
        ],
    );
}

#[test]
fn get_and_apply_pairs() {
    test_method(
        "720408030080000047401076802810739000000851000000264080209680413340000008168943275",
        Method::Hidden(Hidden::Pair),
        vec![
            Action::PreservePencilmarks {
                figure: vec![29, 38].into(),
                pencilmarks: vec![2, 4],
            },
            Action::PreservePencilmarks {
                figure: vec![42, 51].into(),
                pencilmarks: vec![3, 7],
            },
            Action::PreservePencilmarks {
                figure: vec![55, 59].into(),
                pencilmarks: vec![5, 7],
            },
            Action::PreservePencilmarks {
                figure: vec![55, 65].into(),
                pencilmarks: vec![5, 7],
            },
            Action::PreservePencilmarks {
                figure: vec![69, 70].into(),
                pencilmarks: vec![6, 9],
            },
        ],
    );
}

#[test]
fn get_and_apply_triples() {
    test_method(
        "000001030231090000065003100678924300103050006000136700009360570006019843300000000",
        Method::Hidden(Hidden::Triple),
        vec![
            Action::PreservePencilmarks {
                figure: vec![2, 47, 74].into(),
                pencilmarks: vec![2, 4, 7],
            },
            Action::PreservePencilmarks {
                figure: vec![3, 6, 8].into(),
                pencilmarks: vec![2, 5, 6],
            },
            Action::PreservePencilmarks {
                figure: vec![4, 22, 76].into(),
                pencilmarks: vec![4, 7, 8],
            },
            Action::PreservePencilmarks {
                figure: vec![37, 42, 43].into(),
                pencilmarks: vec![2, 4, 9],
            },
            Action::PreservePencilmarks {
                figure: vec![63, 64, 66].into(),
                pencilmarks: vec![2, 5, 7],
            },
        ],
    );
}

#[test]
fn get_and_apply_quads() {
    test_method(
        "901500046425090081860010020502000000019000460600000002196040253200060817000001694",
        Method::Hidden(Hidden::Quad),
        vec![
            Action::PreservePencilmarks {
                figure: vec![1, 4, 5, 6].into(),
                pencilmarks: vec![2, 3, 7, 8],
            },
            Action::PreservePencilmarks {
                figure: vec![6, 15, 24, 26].into(),
                pencilmarks: vec![3, 5, 7, 9],
            },
            Action::PreservePencilmarks {
                figure: vec![20, 47, 65, 74].into(),
                pencilmarks: vec![3, 4, 7, 8],
            },
            Action::PreservePencilmarks {
                figure: vec![28, 36, 46, 47].into(),
                pencilmarks: vec![3, 4, 7, 8],
            },
            Action::PreservePencilmarks {
                figure: vec![30, 32, 48, 50].into(),
                pencilmarks: vec![1, 4, 6, 9],
            },
            Action::PreservePencilmarks {
                figure: vec![33, 35, 44, 51].into(),
                pencilmarks: vec![1, 5, 8, 9],
            },
            Action::PreservePencilmarks {
                figure: vec![64, 65, 66, 68].into(),
                pencilmarks: vec![3, 4, 5, 9],
            },
            Action::PreservePencilmarks {
                figure: vec![66, 68, 75, 76].into(),
                pencilmarks: vec![2, 3, 5, 9],
            },
        ],
    );
}

#[test]
fn naked_single() {
    test_method(
        "401003050000605084895407136030060405900050300050001200240500007009000500500092000",
        Method::Naked(Naked::Single),
        vec![Action::PlaceNumber {
            position: 22,
            number: 2,
        }],
    );

    test_method(
        "401003050000605084895427136030060405900050300050001200240500007009000500500092000",
        Method::Naked(Naked::Single),
        vec![
            Action::PlaceNumber {
                position: 4,
                number: 8,
            },
            Action::PlaceNumber {
                position: 13,
                number: 1,
            },
        ],
    );
}

#[test]
fn naked_pairs() {
    test_method(
        "400000938032094100095300240370609004529001673604703090957008300003900400240030709",
        Method::Naked(Naked::Pair),
        vec![
            Action::RemovePencilmarks {
                figure: vec![0, 3, 4, 5, 6, 7, 8].into(),
                pencilmarks: vec![1, 6],
            },
            Action::RemovePencilmarks {
                figure: vec![0, 9, 10, 11, 18, 19, 20].into(),
                pencilmarks: vec![1, 6],
            },
            Action::RemovePencilmarks {
                figure: vec![18, 19, 20, 21, 22, 24, 25].into(),
                pencilmarks: vec![6, 7],
            },
            Action::RemovePencilmarks {
                figure: vec![27, 28, 36, 37, 38, 45, 47].into(),
                pencilmarks: vec![1, 8],
            },
            Action::RemovePencilmarks {
                figure: vec![36, 37, 38, 41, 42, 43, 44].into(),
                pencilmarks: vec![4, 8],
            },
            Action::RemovePencilmarks {
                figure: vec![30, 31, 32, 41, 48, 49, 50].into(),
                pencilmarks: vec![4, 8],
            },
            Action::RemovePencilmarks {
                figure: vec![34, 35, 42, 43, 44, 52, 53].into(),
                pencilmarks: vec![5, 8],
            },
            Action::RemovePencilmarks {
                figure: vec![6, 15, 24, 42, 60, 69, 78].into(),
                pencilmarks: vec![5, 8],
            },
        ],
    );
}

#[test]
fn naked_triples() {
    test_method(
        "294513006600842319300697254000056000040080060000470000730164005900735001400928637",
        Method::Naked(Naked::Triple),
        vec![
            Action::RemovePencilmarks {
                figure: vec![0, 9, 18, 54, 63, 72].into(),
                pencilmarks: vec![1, 5, 8],
            },
            Action::RemovePencilmarks {
                figure: vec![28, 29, 37, 38, 46, 47].into(),
                pencilmarks: vec![1, 5, 8],
            },
            Action::RemovePencilmarks {
                figure: vec![33, 34, 42, 43, 51, 52].into(),
                pencilmarks: vec![2, 3, 8],
            },
            Action::RemovePencilmarks {
                figure: vec![54, 55, 57, 58, 59, 62].into(),
                pencilmarks: vec![2, 8, 9],
            },
            Action::RemovePencilmarks {
                figure: vec![54, 55, 63, 72, 73, 74].into(),
                pencilmarks: vec![2, 6, 8],
            },
            Action::RemovePencilmarks {
                figure: vec![8, 17, 26, 62, 71, 80].into(),
                pencilmarks: vec![2, 3, 8],
            },
        ],
    );
}

#[test]
fn naked_quads() {
    test_method(
        "000030086000020040090078520371856294900142375400397618200703859039205467700904132",
        Method::Naked(Naked::Quad),
        vec![
            Action::RemovePencilmarks {
                figure: vec![1, 2, 11, 19, 20].into(),
                pencilmarks: vec![1, 5, 6, 8],
            },
            Action::RemovePencilmarks {
                figure: vec![7, 8, 16, 24, 25].into(),
                pencilmarks: vec![1, 3, 7, 9],
            },
            Action::RemovePencilmarks {
                figure: vec![19, 22, 23, 24, 25].into(),
                pencilmarks: vec![1, 3, 4, 6],
            },
            Action::RemovePencilmarks {
                figure: vec![27, 28, 29, 36, 45].into(),
                pencilmarks: vec![2, 5, 6, 8],
            },
            Action::RemovePencilmarks {
                figure: vec![27, 36, 45, 54, 72].into(),
                pencilmarks: vec![1, 5, 6, 8],
            },
        ],
    );
}

#[test]
fn pointing_pairs() {
    test_method(
        "032006100410000000000901000500090004060000071300020005000508000000000519057009860",
        Method::Pointing(Pointing::Pair),
        vec![
            Action::RemovePencilmarks {
                figure: vec![2, 11, 20, 38, 56, 65, 74].into(),
                pencilmarks: vec![1],
            },
            Action::RemovePencilmarks {
                figure: vec![3, 12, 21, 39, 57, 66, 75].into(),
                pencilmarks: vec![1],
            },
            Action::RemovePencilmarks {
                figure: vec![9, 10, 11, 13, 15, 16, 17].into(),
                pencilmarks: vec![2],
            },
            Action::RemovePencilmarks {
                figure: vec![2, 11, 20, 29, 38, 47, 74].into(),
                pencilmarks: vec![3],
            },
            Action::RemovePencilmarks {
                figure: vec![54, 55, 56, 57, 58, 59, 62].into(),
                pencilmarks: vec![4],
            },
            Action::RemovePencilmarks {
                figure: vec![2, 29, 38, 47, 56, 65, 74].into(),
                pencilmarks: vec![5],
            },
            Action::RemovePencilmarks {
                figure: vec![36, 37, 38, 39, 42, 43, 44].into(),
                pencilmarks: vec![5],
            },
            Action::RemovePencilmarks {
                figure: vec![3, 12, 21, 39, 57, 66, 75].into(),
                pencilmarks: vec![6],
            },
            Action::RemovePencilmarks {
                figure: vec![6, 15, 24, 42, 60, 69, 78].into(),
                pencilmarks: vec![6],
            },
            Action::RemovePencilmarks {
                figure: vec![1, 10, 19, 37, 55, 64, 73].into(),
                pencilmarks: vec![7],
            },
            Action::RemovePencilmarks {
                figure: vec![54, 55, 56, 57, 58, 59, 61].into(),
                pencilmarks: vec![7],
            },
            Action::RemovePencilmarks {
                figure: vec![7, 16, 25, 43, 61, 70, 79].into(),
                pencilmarks: vec![8],
            },
        ],
    )
}

#[test]
fn pointing_triples() {
    test_method(
        "930050000200630095856002000003180570005020980080005000000800159508210004000560008",
        Method::Pointing(Pointing::Triple),
        vec![
            Action::RemovePencilmarks {
                figure: vec![75, 76, 77, 78, 79, 80].into(),
                pencilmarks: vec![1],
            },
            Action::RemovePencilmarks {
                figure: vec![0, 1, 2, 3, 4, 5].into(),
                pencilmarks: vec![2],
            },
            Action::RemovePencilmarks {
                figure: vec![5, 14, 23, 32, 41, 50].into(),
                pencilmarks: vec![3],
            },
            Action::RemovePencilmarks {
                figure: vec![18, 19, 20, 21, 22, 23].into(),
                pencilmarks: vec![3],
            },
            Action::RemovePencilmarks {
                figure: vec![0, 1, 2, 3, 4, 5].into(),
                pencilmarks: vec![6],
            },
        ],
    )
}

#[test]
fn singles_chains() {
    test(
        "200041056405602010016095004350129640142060590069504001584216379920408165601950482",
        vec![
            Action::RemovePencilmarks {
                figure: vec![4, 13, 22, 30, 39, 48].into(),
                pencilmarks: vec![3],
            },
            Action::RemovePencilmarks {
                figure: vec![13, 53].into(),
                pencilmarks: vec![3],
            },
            Action::RemovePencilmarks {
                figure: vec![17, 40].into(),
                pencilmarks: vec![8],
            },
            Action::RemovePencilmarks {
                figure: vec![26, 39].into(),
                pencilmarks: vec![3],
            },
        ],
    );

    test(
        "400100000002000004008090100006403800080000010007906200003070000200000605000002001",
        vec![
            Action::RemovePencilmarks {
                figure: vec![4, 13, 22, 30, 32, 39, 40, 41, 48, 50, 58, 67, 76].into(),
                pencilmarks: vec![1],
            },
            Action::RemovePencilmarks {
                figure: vec![4, 13, 22, 31, 40, 49, 57, 58, 59, 66, 68, 75, 77].into(),
                pencilmarks: vec![4],
            },
            Action::RemovePencilmarks {
                figure: vec![5, 14, 23, 32, 41, 50, 57, 58, 66, 67, 75, 76, 77].into(),
                pencilmarks: vec![1],
            },
            Action::RemovePencilmarks {
                figure: vec![13, 22, 31, 49, 58, 67, 76].into(),
                pencilmarks: vec![2],
            },
            Action::RemovePencilmarks {
                figure: vec![27, 28, 29, 30, 31, 32, 33, 42, 43, 44, 51, 52, 53].into(),
                pencilmarks: vec![7],
            },
            Action::RemovePencilmarks {
                figure: vec![30, 31, 32, 36, 37, 38, 40, 42, 43, 44, 48, 49, 50].into(),
                pencilmarks: vec![7],
            },
            Action::RemovePencilmarks {
                figure: vec![30, 31, 32, 36, 37, 38, 41, 42, 43, 44, 48, 49, 50].into(),
                pencilmarks: vec![2],
            },
        ],
    );

    let mut grid = Grid::from_str(
        "200041056405602010016095004350129640142060590069504001584216379920408165601950482",
    )
    .unwrap();

    grid.set_pencilmarks(2, vec![3, 8]);
    grid.set_pencilmarks(3, vec![3, 8]);
    grid.set_pencilmarks(49, vec![3, 8]);
    grid.set_pencilmarks(44, vec![3, 8]);

    let actions = Method::SimpleColoring(SimpleColoring {}).get_all_helpful_applications(&grid, false);

    let predictions = vec![
        Action::RemovePencilmarks {
            figure: vec![26, 39].into(),
            pencilmarks: vec![3],
        },
        Action::RemovePencilmarks {
            figure: vec![13, 53].into(),
            pencilmarks: vec![3],
        },
        Action::RemovePencilmarks {
            figure: vec![4, 13, 22, 30, 39, 48].into(),
            pencilmarks: vec![3],
        },
        Action::RemovePencilmarks {
            figure: vec![10, 76].into(),
            pencilmarks: vec![7],
        },
        Action::RemovePencilmarks {
            figure: vec![15, 49].into(),
            pencilmarks: vec![7],
        },
        Action::RemovePencilmarks {
            figure: vec![18, 48].into(),
            pencilmarks: vec![7],
        },
        Action::RemovePencilmarks {
            figure: vec![21, 36].into(),
            pencilmarks: vec![7],
        },
        Action::RemovePencilmarks {
            figure: vec![9, 10, 11, 12, 14, 15, 16].into(),
            pencilmarks: vec![7],
        },
        Action::RemovePencilmarks {
            figure: vec![9, 10, 11, 21, 22, 23].into(),
            pencilmarks: vec![7],
        },
        // Rule 2
        Action::RemovePencilmarks {
            figure: vec![17, 18, 21, 29, 41, 51, 67, 73].into(),
            pencilmarks: vec![7],
        },
        Action::RemovePencilmarks {
            figure: vec![17, 40].into(),
            pencilmarks: vec![8],
        },
    ];

    assert_eq!(actions, ActionSet::from(predictions));
}

#[test]
fn x_wing_x_wing() {
    test_method(
        "100000569492056108056109240009640801064010000218035604040500016905061402621000005",
        Method::Fishes(Fishes::XWing),
        vec![
            Action::RemovePencilmarks {
                figure: vec![0, 1, 2, 4, 6, 7, 8, 72, 73, 74, 76, 78, 79, 80].into(),
                pencilmarks: vec![4],
            },
            Action::RemovePencilmarks {
                figure: vec![0, 7, 9, 16, 18, 25, 45, 52, 54, 61, 63, 70, 72, 79].into(),
                pencilmarks: vec![5],
            },
            Action::RemovePencilmarks {
                figure: vec![3, 7, 21, 25, 30, 34, 39, 43, 57, 61, 66, 70, 75, 79].into(),
                pencilmarks: vec![7],
            },
            Action::RemovePencilmarks {
                figure: vec![12, 14, 21, 23, 30, 32, 39, 41, 48, 50, 57, 59, 66, 68].into(),
                pencilmarks: vec![4],
            },
            Action::RemovePencilmarks {
                figure: vec![28, 29, 30, 31, 32, 33, 35, 37, 38, 39, 40, 41, 42, 44].into(),
                pencilmarks: vec![5],
            },
        ],
    );

    test_method(
        "000000094760910050090002081070050010000709000080031067240100070010090045900000100",
        Method::Fishes(Fishes::XWing),
        vec![
            Action::RemovePencilmarks {
                figure: vec![1, 3, 4, 5, 6, 7, 8, 37, 39, 40, 41, 42, 43, 44].into(),
                pencilmarks: vec![1],
            },
            Action::RemovePencilmarks {
                figure: vec![9, 11, 18, 20, 27, 29, 45, 47, 54, 56, 63, 65, 72, 74].into(),
                pencilmarks: vec![1],
            },
            Action::RemovePencilmarks {
                figure: vec![36, 37, 38, 39, 41, 42, 44, 72, 73, 74, 75, 77, 78, 80].into(),
                pencilmarks: vec![2],
            },
        ],
    )
}

#[test]
fn hidden_single_get_and_apply() {
    let mut grid = Grid::from_str(
        "000004028406000005100030600000301000087000140000709000002010003900000507670400000",
    )
    .unwrap();

    let candidates = Method::Hidden(Hidden::Single).get_all_applications(&grid);
    assert_eq!(
        candidates,
        ActionSet::from(vec![
            Action::PlaceNumber { position: 0, number: 7 },
            Action::PlaceNumber { position: 3, number: 1 },
            Action::PlaceNumber { position: 16, number: 1 },
            Action::PlaceNumber { position: 20, number: 8 },
            Action::PlaceNumber { position: 26, number: 4 },
            Action::PlaceNumber { position: 36, number: 3 },
            Action::PlaceNumber { position: 44, number: 9 },
            Action::PlaceNumber { position: 54, number: 8 },
            Action::PlaceNumber { position: 59, number: 7 },
            Action::PlaceNumber { position: 60, number: 4 },
            Action::PlaceNumber { position: 80, number: 1 },
        ])
    );

    for i in 0..candidates.len() {
        candidates.get(i).apply_to_grid(&mut grid);
    }

    assert_eq!(grid[0], Cell::Number(7));
    assert_eq!(grid[3], Cell::Number(1));
    assert_eq!(grid[16], Cell::Number(1));
    assert_eq!(grid[20], Cell::Number(8));
    assert_eq!(grid[26], Cell::Number(4));
    assert_eq!(grid[36], Cell::Number(3));
    assert_eq!(grid[44], Cell::Number(9));
    assert_eq!(grid[54], Cell::Number(8));
    assert_eq!(grid[59], Cell::Number(7));
    assert_eq!(grid[60], Cell::Number(4));
    assert_eq!(grid[80], Cell::Number(1));
}

#[test]
fn naked_single_get_and_apply() {
    let mut grid = Grid::from_str(
        "401003050000605084895407136030060405900050300050001200240500007009000500500092000",
    )
    .unwrap();

    let candidates = Method::Naked(Naked::Single).get_all_applications(&grid);
    assert_eq!(
        candidates,
        ActionSet::from(vec![Action::PlaceNumber { position: 22, number: 2 }])
    );

    candidates.get(0).apply_to_grid(&mut grid);
    assert_eq!(grid[22], Cell::Number(2));

    let candidates = Method::Naked(Naked::Single).get_all_applications(&grid);
    assert_eq!(
        candidates,
        ActionSet::from(vec![
            Action::PlaceNumber { position: 4, number: 8 },
            Action::PlaceNumber { position: 13, number: 1 },
        ])
    );
}

#[test]
fn naked_triple_without_a_cell_that_holds_all_three() {
    // row 0: three cells with the candidates 1 2, 2 3 and 1 3, six with 1 2 3 4
    let mut cells = vec![Cell::Number(9); 81];
    cells[0] = Cell::Pencilmarks(vec![1, 2]);
    cells[1] = Cell::Pencilmarks(vec![2, 3]);
    cells[2] = Cell::Pencilmarks(vec![1, 3]);
    for p in 3..9 {
        cells[p] = Cell::Pencilmarks(vec![1, 2, 3, 4]);
    }
    let grid = Grid::from_cells(cells).unwrap();
    let found = Method::Naked(Naked::Triple).get_all_applications(&grid);
    assert_eq!(
        found,
        ActionSet::from(vec![
            // in the row
            Action::RemovePencilmarks {
                figure: vec![3, 4, 5, 6, 7, 8].into(),
                pencilmarks: vec![1, 2, 3],
            },
            // in the box
            Action::RemovePencilmarks {
                figure: vec![9, 10, 11, 18, 19, 20].into(),
                pencilmarks: vec![1, 2, 3],
            },
        ])
    );
    assert!(Method::Naked(Naked::Pair).get_all_applications(&grid).is_empty());
    let helpful = Method::Naked(Naked::Triple).get_all_helpful_applications(&grid, true);
    assert_eq!(
        helpful,
        ActionSet::from(vec![Action::RemovePencilmarks {
            figure: vec![3, 4, 5, 6, 7, 8].into(),
            pencilmarks: vec![1, 2, 3],
        }])
    );
}

#[test]
fn hidden_triple_without_a_digit_that_has_all_three_places() {
    // row 0: the digits 1, 2 and 3 have the places 0 1, 1 2 and 0 2
    let mut cells = vec![Cell::Number(9); 81];
    cells[0] = Cell::Pencilmarks(vec![1, 3, 4, 5]);
    cells[1] = Cell::Pencilmarks(vec![1, 2, 4, 5]);
    cells[2] = Cell::Pencilmarks(vec![2, 3, 4, 5]);
    for p in 3..9 {
        cells[p] = Cell::Pencilmarks(vec![4, 5, 6, 7, 8]);
    }
    let grid = Grid::from_cells(cells).unwrap();
    let found = Method::Hidden(Hidden::Triple).get_all_applications(&grid);
    let wanted = Action::PreservePencilmarks {
        figure: vec![0, 1, 2].into(),
        pencilmarks: vec![1, 2, 3],
    };
    assert!((0..found.len()).any(|i| found.get(i) == &wanted));
    // a digit without a place in the house is part of no hidden set
    assert!((0..found.len()).all(|i| match found.get(i) {
        Action::PreservePencilmarks { pencilmarks, .. } => !pencilmarks.contains(&9),
        _ => false,
    }));
    let helpful = Method::Hidden(Hidden::Triple).get_all_helpful_applications(&grid, true);
    assert!((0..helpful.len()).any(|i| helpful.get(i) == &wanted));
    let mut after = grid.clone();
    wanted.apply_to_grid(&mut after);
    assert_eq!(after[0], Cell::Pencilmarks(vec![1, 3]));
    assert_eq!(after[1], Cell::Pencilmarks(vec![1, 2]));
    assert_eq!(after[2], Cell::Pencilmarks(vec![2, 3]));
    assert_eq!(after[3], grid[3]);
}
