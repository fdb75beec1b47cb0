use sudoku_solver::cell::Cell;

#[test]
#[should_panic]
fn number_unwrap() {
    Cell::Pencilmarks([1, 2, 3].to_vec()).number();
}

#[test]
#[should_panic]
fn pencilmarks_unwrap() {
    Cell::Number(1).pencilmarks();
}

#[test]
fn is_pencilmarks_or_number() {
    let pencilmarks = Cell::Pencilmarks([1, 2, 3].to_vec());
    let number = Cell::Number(1);

    assert!(pencilmarks.is_pencilmarks());
    assert!(!pencilmarks.is_number());

    assert!(!number.is_pencilmarks());
    assert!(number.is_number());
}

#[test]
fn cell_values() {
    assert_eq!(
        Cell::all_pencilmarks(),
        Cell::Pencilmarks(vec![1, 2, 3, 4, 5, 6, 7, 8, 9])
    );
    assert_eq!(Cell::Number(7).number(), 7);
    assert_eq!(Cell::Pencilmarks(vec![2, 9]).pencilmarks(), vec![2, 9]);
    assert_eq!(Cell::Pencilmarks(vec![2, 9]).clone(), Cell::Pencilmarks(vec![2, 9]));
}
