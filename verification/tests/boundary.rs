use jst::boundary::{fill_periodic_seam, mirror_wall};
use jst::field::Field;
use jst::mesh::header_count_fits;

fn numbered(ni: usize, nj: usize, halo: usize) -> Field<i64> {
    let mut f: Field<i64> = Field::new(ni, nj, halo);
    for (k, (i, j)) in f.all_indices().into_iter().enumerate() {
        f.set(i, j, 1000 + k as i64);
    }
    for (i, j) in f.interior() {
        f.set(i, j, 10 * i as i64 + j as i64);
    }
    f
}

#[test]
fn wall_ghost_mirrors_velocity_and_copies_scalars_per_layer() {
    let mut scalar = numbered(5, 8, 3);
    let mut velocity = numbered(5, 8, 3);
    let before = scalar.clone();
    mirror_wall(&mut scalar, 3, |v| v);
    mirror_wall(&mut velocity, 3, |v: i64| -v);
    for k in 0..3isize {
        for j in 0..8isize {
            let g = -1 - k;
            assert_eq!(scalar.get(g, j), before.get(k, j));
            assert_eq!(velocity.get(g, j), -before.get(k, j));
        }
    }
    // corners and the other ghost layers are untouched
    assert_eq!(scalar.get(-1, -1), before.get(-1, -1));
    assert_eq!(scalar.get(5, 0), before.get(5, 0));
    assert_eq!(scalar.to_interior_vec(), before.to_interior_vec());
}

#[test]
fn periodic_ghosts_wrap_modulo_nj() {
    let mut f = numbered(4, 8, 3);
    let before = f.clone();
    fill_periodic_seam(&mut f, 3);
    let nj = 8isize;
    for i in 0..4isize {
        for k in 1..=3isize {
            assert_eq!(f.get(i, -k), before.get(i, nj - k));
            assert_eq!(f.get(i, nj - 1 + k), before.get(i, k - 1));
        }
    }
    assert_eq!(f.get(-1, -1), before.get(-1, -1));
    assert_eq!(f.get(4, 9), before.get(4, 9));
}

#[test]
fn periodic_ghosts_wrap_even_past_a_whole_ring() {
    // more ghost columns than physical columns: column j still takes j mod NJ
    let mut f = numbered(2, 2, 5);
    let before = f.clone();
    fill_periodic_seam(&mut f, 5);
    for i in 0..2isize {
        for j in -5..7isize {
            assert_eq!(f.get(i, j), before.get(i, j.rem_euclid(2)), "({i},{j})");
        }
    }
}

#[test]
fn applying_twice_is_idempotent() {
    let mut f = numbered(4, 8, 3);
    fill_periodic_seam(&mut f, 3);
    mirror_wall(&mut f, 3, |v| v);
    let snapshot = f.raw().to_vec();
    fill_periodic_seam(&mut f, 3);
    mirror_wall(&mut f, 3, |v| v);
    assert_eq!(snapshot, f.raw());
}

#[test]
fn header_count_must_fit_a_usize() {
    assert!(header_count_fits("4 8\n1 2\n"));
    assert!(header_count_fits(""));
    assert!(header_count_fits("x y\n"));
    assert!(!header_count_fits("18446744073709551615 2\n"));
    assert!(header_count_fits("18446744073709551615 1\n"));
}
