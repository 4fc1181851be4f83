use jst::field::Field;
use jst::gradient::{fill_ghost_gradients, Grad};

fn g(v: f64) -> Grad<f64> {
    Grad {
        dudx: v,
        dudy: v + 0.1,
        dvdx: v + 0.2,
        dvdy: v + 0.3,
        dtdx: v + 0.4,
        dtdy: v + 0.5,
        dnutdx: v + 0.6,
        dnutdy: v + 0.7,
    }
}

fn filled(ni: usize, nj: usize, halo: usize) -> Field<Grad<f64>> {
    let mut f: Field<Grad<f64>> = Field::new(ni, nj, halo);
    for (k, (i, j)) in f.all_indices().into_iter().enumerate() {
        f.set(i, j, g(100.0 + k as f64));
    }
    for (i, j) in f.interior() {
        f.set(i, j, g(10.0 + i as f64 + 0.5 * j as f64));
    }
    f
}

#[test]
fn ghost_gradient_layer_follows_the_boundary_rules() {
    let mut f = filled(4, 6, 2);
    let before = f.clone();
    fill_ghost_gradients(&mut f, 0.0);
    let (ni, nj) = (4isize, 6isize);
    for j in 0..nj {
        let w = f.get(-1, j);
        let c = before.get(0, j);
        assert_eq!(w.dudx, c.dudx);
        assert_eq!(w.dvdy, c.dvdy);
        assert_eq!(w.dnutdy, c.dnutdy);
        assert_eq!(w.dtdx, 0.0); // adiabatic wall
        assert_eq!(w.dtdy, 0.0);
        let far = f.get(ni, j);
        assert_eq!(far.dudx, 0.0); // far field
        assert_eq!(far.dnutdy, 0.0);
    }
    for i in 0..ni {
        assert_eq!(f.get(i, -1).dudx, before.get(i, nj - 1).dudx);
        assert_eq!(f.get(i, nj).dudx, before.get(i, 0).dudx);
    }
    // corners, the second ghost layer and the physical cells are untouched
    assert_eq!(f.get(-1, -1).dudx, before.get(-1, -1).dudx);
    assert_eq!(f.get(-2, 3).dudx, before.get(-2, 3).dudx);
    assert_eq!(f.get(ni + 1, 0).dudx, before.get(ni + 1, 0).dudx);
    assert_eq!(f.to_interior_vec().len(), 24);
    for (i, j) in f.interior() {
        assert_eq!(f.get(i, j).dtdx, before.get(i, j).dtdx);
    }
}

#[test]
fn filling_the_ghost_layer_twice_changes_nothing() {
    let mut f = filled(3, 5, 1);
    fill_ghost_gradients(&mut f, 0.0);
    let once = f.clone();
    fill_ghost_gradients(&mut f, 0.0);
    for (i, j) in f.all_indices() {
        assert_eq!(f.get(i, j).dudx, once.get(i, j).dudx);
        assert_eq!(f.get(i, j).dtdy, once.get(i, j).dtdy);
    }
}
