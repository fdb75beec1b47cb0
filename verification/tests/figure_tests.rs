use sudoku_solver::figure::Figure;

fn figure(positions: Vec<usize>) -> Figure {
    Figure::from(positions)
}

#[test]
fn row() {
    let second_row = Figure::row(1);
    let ninth_row = Figure::row(8);

    assert_eq!(second_row, figure(vec![9, 10, 11, 12, 13, 14, 15, 16, 17]));
    assert_eq!(ninth_row, figure(vec![72, 73, 74, 75, 76, 77, 78, 79, 80]));
}

#[test]
fn col() {
    let second_col = Figure::col(1);
    let ninth_col = Figure::col(8);

    assert_eq!(second_col, figure(vec![1, 10, 19, 28, 37, 46, 55, 64, 73]));
    assert_eq!(ninth_col, figure(vec![8, 17, 26, 35, 44, 53, 62, 71, 80]));
}

#[test]
fn sqr() {
    let second_sqr = Figure::sqr(1);
    let ninth_sqr = Figure::sqr(8);

    assert_eq!(second_sqr, figure(vec![3, 4, 5, 12, 13, 14, 21, 22, 23]));
    assert_eq!(ninth_sqr, figure(vec![60, 61, 62, 69, 70, 71, 78, 79, 80]));
}

#[test]
fn neighbours() {
    let n1 = Figure::neighbours(2);
    let n2 = Figure::neighbours(80);

    assert_eq!(n1, Figure::row(0) + Figure::col(2) + Figure::sqr(0));
    assert_eq!(n2, Figure::row(8) + Figure::col(8) + Figure::sqr(8));
}

#[test]
fn checked_figures() {
    assert!(Figure::row_checked(9).is_err());
    assert!(Figure::col_checked(9).is_err());
    assert!(Figure::sqr_checked(9).is_err());
    assert!(Figure::neighbours_checked(81).is_err());
}

#[test]
fn figure_of() {
    let row = Figure::row_of(40);
    let col = Figure::col_of(40);
    let sqr = Figure::sqr_of(40);

    assert_eq!(row, 4);
    assert_eq!(col, 4);
    assert_eq!(sqr, 4);

    let row = Figure::row_of(55);
    let col = Figure::col_of(55);
    let sqr = Figure::sqr_of(55);

    assert_eq!(row, 6);
    assert_eq!(col, 1);
    assert_eq!(sqr, 6);
}

#[test]
fn figure_of_checked() {
    assert!(Figure::row_of_checked(81).is_err());
    assert!(Figure::col_of_checked(81).is_err());
    assert!(Figure::sqr_of_checked(81).is_err());
}

#[test]
fn is_on_the_same_figure() {
    assert!((Figure::row(0) - vec![0].into())
        .is_on_the_same_row()
        .is_some_and(|row| row == 0));
    assert!((Figure::row(0) + vec![9].into())
        .is_on_the_same_row()
        .is_none());

    assert!((Figure::col(0) - vec![0].into())
        .is_on_the_same_col()
        .is_some_and(|col| col == 0));
    assert!((Figure::col(0) + vec![1].into())
        .is_on_the_same_col()
        .is_none());

    assert!((Figure::sqr(0) - vec![0].into())
        .is_on_the_same_sqr()
        .is_some_and(|sqr| sqr == 0));
    assert!((Figure::sqr(0) + vec![3].into())
        .is_on_the_same_sqr()
        .is_none());
}

#[test]
fn checked_figures_accept_the_board() {
    for n in 0..9u8 {
        assert_eq!(Figure::row_checked(n).unwrap().len(), 9);
        assert_eq!(Figure::col_checked(n).unwrap().len(), 9);
        assert_eq!(Figure::sqr_checked(n).unwrap().len(), 9);
    }
    for p in 0..81usize {
        let near = Figure::neighbours_checked(p).unwrap();
        assert_eq!(near.len(), 21);
        assert!(near.contains(p));
        assert_eq!(Figure::row_of_checked(p), Ok((p / 9) as u8));
        assert_eq!(Figure::col_of_checked(p), Ok((p % 9) as u8));
        assert_eq!(
            Figure::sqr_of_checked(p),
            Ok(((p / 27) * 3 + (p % 9) / 3) as u8)
        );
    }
}

#[test]
fn figures_are_sets() {
    let f = figure(vec![5, 3, 5, 1, 3]);
    assert_eq!(f.positions(), &vec![1, 3, 5]);
    assert_eq!(f.len(), 3);
    assert!(!f.is_empty());
    assert!(figure(vec![]).is_empty());
    assert!(figure(vec![]).is_on_the_same_row().is_none());
}

#[test]
fn figure_algebra() {
    let a = figure(vec![1, 2, 3, 40]);
    let b = figure(vec![3, 40, 80]);
    assert_eq!(a.clone() + b.clone(), figure(vec![1, 2, 3, 40, 80]));
    assert_eq!(a.clone() - b.clone(), figure(vec![1, 2]));
    assert_eq!(a.intersection(b.clone()), figure(vec![3, 40]));

    let mut c = a.clone();
    c += b.clone();
    assert_eq!(c, figure(vec![1, 2, 3, 40, 80]));
    c -= a.clone();
    assert_eq!(c, figure(vec![80]));
}

#[test]
fn all_cells_and_all_figures() {
    assert_eq!(Figure::all_cells().positions(), &(0..81).collect::<Vec<usize>>());
    let all = Figure::all_figures();
    assert_eq!(all.len(), 27);
    assert_eq!(all[0], Figure::col(0));
    assert_eq!(all[1], Figure::row(0));
    assert_eq!(all[2], Figure::sqr(0));
    assert_eq!(all[26], Figure::sqr(8));
}

#[test]
fn figures_are_ordered_like_their_positions() {
    assert!(figure(vec![1, 2]) < figure(vec![1, 3]));
    assert!(figure(vec![1]) < figure(vec![1, 2]));
    assert!(figure(vec![0, 80]) < figure(vec![1]));
}
