use wfc::display::DISPLAY_LIMIT;
use wfc::matrix::{Matrix, UNCOLLAPSED};

#[test]
fn test_matrix_init() {
    let m = Matrix::new(3, 3);
    assert_eq!(m.rows, 3);
    assert_eq!(m.cols, 3);
    assert_eq!(m.data.len(), 3);
    assert_eq!(m.data[0].len(), 3);
    assert!(m.data.iter().all(|row| row.iter().all(|&x| x == -1)));
    println!("matrix init:\n{}", m.to_text());
}

#[test]
fn test_index_operator() {
    let mut m = Matrix::new(3, 3);
    m.set(0, 0, 1);
    m.set(1, 1, 2);
    m.set(2, 2, 3);
    assert_eq!(m[(0, 0)], 1);
    assert_eq!(m[(1, 1)], 2);
    assert_eq!(m[(2, 2)], 3);
    println!("index operator:\n{}", m.to_text());
}

#[test]
fn test_matrix_rectangular_layout() {
    let mut m = Matrix::new(4, 2);
    assert_eq!(m.cols, 4);
    assert_eq!(m.rows, 2);
    assert_eq!(m.data.len(), 2);
    assert_eq!(m.data[1].len(), 4);
    m.set(3, 1, 7);
    assert_eq!(m.data[1][3], 7);
    assert_eq!(m.get(3, 1), 7);
    assert_eq!(m.get(3, 0), UNCOLLAPSED);
    assert_eq!(m.get(0, 1), UNCOLLAPSED);
}

#[test]
fn test_matrix_set_changes_one_cell() {
    let mut m = Matrix::new(3, 2);
    m.set(1, 0, 5);
    for y in 0..2 {
        for x in 0..3 {
            let expected = if x == 1 && y == 0 { 5 } else { -1 };
            assert_eq!(m.get(x, y), expected);
            assert_eq!(m[(x, y)], expected);
        }
    }
}

#[test]
fn test_matrix_empty() {
    let m = Matrix::new(0, 0);
    assert_eq!(m.data.len(), 0);
    assert_eq!(m.to_text(), "");
    let n = Matrix::new(0, 2);
    assert_eq!(n.data.len(), 2);
    assert_eq!(n.to_text(), "\n\n");
}

#[test]
fn test_matrix_text_exact() {
    let mut m = Matrix::new(3, 2);
    m.set(0, 0, 0);
    m.set(1, 0, 9);
    m.set(2, 0, 10);
    m.set(0, 1, 127);
    m.set(1, 1, -128);
    assert_eq!(m.to_text(), "0 9 10 \n127 -128 -1 \n");
}

#[test]
fn test_matrix_text_three_digits() {
    let mut m = Matrix::new(4, 1);
    m.set(0, 0, 100);
    m.set(1, 0, 99);
    m.set(2, 0, -100);
    m.set(3, 0, -9);
    assert_eq!(m.to_text(), "100 99 -100 -9 \n");
}

#[test]
fn test_matrix_text_too_large() {
    assert_eq!(DISPLAY_LIMIT, 10_000);
    let at_limit = Matrix::new(100, 100);
    assert!(at_limit.to_text().starts_with("-1 -1 "));
    assert_eq!(at_limit.to_text().len(), 100 * (100 * 3 + 1));
    let above = Matrix::new(101, 100);
    assert_eq!(above.to_text(), "Matrix is too large to display.");
}

#[test]
fn test_too_large_to_display() {
    assert!(!Matrix::new(0, 0).too_large_to_display());
    assert!(!Matrix::new(100, 100).too_large_to_display());
    assert!(!Matrix::new(10_000, 1).too_large_to_display());
    assert!(Matrix::new(10_001, 1).too_large_to_display());
    assert!(Matrix::new(1, 10_001).too_large_to_display());
}
