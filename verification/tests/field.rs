use jst::field::Field;
use std::collections::HashSet;

#[test]
fn halo_indices_are_addressable() {
    let mut f: Field<f64> = Field::new(4, 5, 2);
    f.set(-2, -2, 1.0);
    f.set(5, 6, 2.0);
    assert_eq!(f.get(-2, -2), 1.0);
    assert_eq!(f.get(5, 6), 2.0);
}

#[test]
fn distinct_indices_map_to_distinct_slots() {
    let f: Field<f64> = Field::new(3, 4, 1);
    let mut seen = HashSet::new();
    for i in -1..4 {
        for j in -1..5 {
            assert!(seen.insert(f.offset(i, j)), "offset collision at ({i},{j})");
        }
    }
    assert_eq!(seen.len(), 5 * 6);
}

#[test]
fn interior_iterates_row_major() {
    let f: Field<f64> = Field::new(2, 3, 1);
    let got: Vec<_> = f.interior();
    assert_eq!(got, vec![(0, 0), (0, 1), (0, 2), (1, 0), (1, 1), (1, 2)]);
}

#[test]
fn all_indices_cover_the_halo_in_row_major_order() {
    let f: Field<u8> = Field::new(1, 2, 1);
    let got = f.all_indices();
    assert_eq!(got.len(), 3 * 4);
    assert_eq!(got[0], (-1, -1));
    assert_eq!(got[3], (-1, 2));
    assert_eq!(got[4], (0, -1));
    assert_eq!(got[11], (1, 2));
}

#[test]
fn new_field_holds_the_default_everywhere() {
    let f: Field<i32> = Field::new(3, 2, 2);
    assert_eq!(f.raw().len(), 7 * 6);
    assert!(f.raw().iter().all(|&v| v == 0));
    assert_eq!((f.ni(), f.nj(), f.halo(), f.stride()), (3, 2, 2, 6));
}

#[test]
fn offsets_follow_the_row_major_layout() {
    let f: Field<u8> = Field::new(3, 4, 2);
    assert_eq!(f.offset(-2, -2), 0);
    assert_eq!(f.offset(0, 0), 2 * 8 + 2);
    assert_eq!(f.offset(1, 3), 3 * 8 + 5);
}

#[test]
fn set_leaves_every_other_cell_alone() {
    let mut f: Field<i64> = Field::new(2, 2, 1);
    for (k, (i, j)) in f.all_indices().into_iter().enumerate() {
        f.set(i, j, k as i64);
    }
    let before = f.raw().to_vec();
    f.set(0, 1, -7);
    assert_eq!(f.get(0, 1), -7);
    assert_eq!(*f.at(0, 1), -7);
    let o = f.offset(0, 1);
    for (k, (&a, &b)) in before.iter().zip(f.raw()).enumerate() {
        if k != o {
            assert_eq!(a, b);
        }
    }
}

#[test]
fn at_mut_writes_exactly_one_cell() {
    let mut f: Field<i64> = Field::new(2, 3, 1);
    for (k, (i, j)) in f.all_indices().into_iter().enumerate() {
        f.set(i, j, k as i64);
    }
    let before = f.raw().to_vec();
    let o = f.offset(-1, 3);
    assert_eq!(*f.at_mut(-1, 3), before[o]);
    *f.at_mut(-1, 3) += 100;
    assert_eq!(f.get(-1, 3), before[o] + 100);
    for (k, (&a, &b)) in before.iter().zip(f.raw()).enumerate() {
        if k != o {
            assert_eq!(a, b);
        }
    }
}

#[test]
fn row_mut_is_one_row_with_its_halo() {
    let mut f: Field<i64> = Field::new(2, 3, 1);
    for (k, (i, j)) in f.all_indices().into_iter().enumerate() {
        f.set(i, j, k as i64);
    }
    let before = f.raw().to_vec();
    let row = f.row_mut(0);
    assert_eq!(row.to_vec(), vec![5, 6, 7, 8, 9]);
    row[1] = -1;
    assert_eq!(f.get(0, 0), -1);
    let after = f.raw().to_vec();
    for k in 0..before.len() {
        if k != 6 {
            assert_eq!(before[k], after[k]);
        }
    }
    assert_eq!(f.row_mut(-1).len(), f.stride());
}

#[test]
fn to_interior_vec_drops_the_halo() {
    let mut f: Field<i32> = Field::new(2, 2, 1);
    f.set(0, 0, 1);
    f.set(0, 1, 2);
    f.set(1, 0, 3);
    f.set(1, 1, 4);
    f.set(-1, 0, 9);
    assert_eq!(f.to_interior_vec(), vec![1, 2, 3, 4]);
}

#[test]
fn raw_mut_copies_a_whole_field() {
    let mut a: Field<i32> = Field::new(2, 3, 1);
    let mut b: Field<i32> = Field::new(2, 3, 1);
    a.set(1, 2, 5);
    a.set(-1, -1, 6);
    b.raw_mut().copy_from_slice(a.raw());
    assert_eq!(b.get(1, 2), 5);
    assert_eq!(b.get(-1, -1), 6);
}
