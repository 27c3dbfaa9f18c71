use particle_life::matrix::Matrix;

#[test]
fn from_element_fills_every_place() {
    let m = Matrix::from_element([3, 2], 7u32);
    assert_eq!(m.size, [3, 2]);
    assert_eq!(m.data.len(), 6);
    assert!(m.data.iter().all(|v| *v == 7));
}

#[test]
fn from_element_of_no_cells_is_empty() {
    let m = Matrix::from_element([0, 5], 1u8);
    assert_eq!(m.data.len(), 0);
    assert!(m.get([0, 0]).is_none());
}

#[test]
fn from_fn_gives_each_index_its_value() {
    let m = Matrix::from_fn([3, 2], |index: [usize; 2]| 10 * index[0] + index[1]);
    for x in 0..3 {
        for y in 0..2 {
            assert_eq!(*m.get([x, y]).unwrap(), 10 * x + y);
        }
    }
}

#[test]
fn from_fn_asks_row_by_row() {
    let mut asked = Vec::new();
    let _m = Matrix::from_fn([2, 2], |index: [usize; 2]| {
        asked.push(index);
        0u8
    });
    assert_eq!(asked, vec![[0, 0], [1, 0], [0, 1], [1, 1]]);
}

#[test]
fn storage_is_row_after_row() {
    let m = Matrix::from_fn([3, 2], |index: [usize; 2]| (index[0], index[1]));
    assert_eq!(m.data[0], (0, 0));
    assert_eq!(m.data[1], (1, 0));
    assert_eq!(m.data[2], (2, 0));
    assert_eq!(m.data[3], (0, 1));
    assert_eq!(m.data[5], (2, 1));
}

#[test]
fn get_out_of_bounds_is_none() {
    let m = Matrix::from_element([3, 2], 0i32);
    assert!(m.get([3, 0]).is_none());
    assert!(m.get([0, 2]).is_none());
    assert!(m.get([usize::MAX, 0]).is_none());
    assert!(m.get([2, 1]).is_some());
}

#[test]
fn get_mut_changes_one_element() {
    let mut m = Matrix::from_element([2, 2], 0i32);
    *m.get_mut([1, 0]).unwrap() = 5;
    assert_eq!(m.data, vec![0, 5, 0, 0]);
    assert!(m.get_mut([2, 0]).is_none());
    assert!(m.get_mut([0, 2]).is_none());
}

#[test]
fn check_index_bounds_tells_inside_from_outside() {
    let m = Matrix::from_element([2, 3], ());
    assert_eq!(m.check_index_bounds([0, 0]), Some(()));
    assert_eq!(m.check_index_bounds([1, 2]), Some(()));
    assert_eq!(m.check_index_bounds([2, 0]), None);
    assert_eq!(m.check_index_bounds([0, 3]), None);
}

#[test]
fn index_and_index_mut_reach_the_element() {
    let mut m = Matrix::from_fn([2, 2], |index: [usize; 2]| index[0] + 2 * index[1]);
    assert_eq!(*m.index([1, 1]), 3);
    *m.index_mut([0, 1]) = 40;
    assert_eq!(*m.index([0, 1]), 40);
    assert_eq!(*m.index([1, 0]), 1);
}
