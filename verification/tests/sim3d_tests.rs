use fluid_sim::sim2d::{AIR, FLUID, SOLID};
use fluid_sim::sim3d::{ic, iu, iv, iw, Sim3D};

#[test]
fn new_grid_sizes() {
    let s = Sim3D::new(3, 4, 5);
    assert_eq!(s.grid_x(), 3);
    assert_eq!(s.grid_y(), 4);
    assert_eq!(s.grid_z(), 5);
    assert_eq!(s.cell_types(), &vec![AIR; 60]);
    assert_eq!(s.solid_faces(0).len(), 4 * 4 * 5);
    assert_eq!(s.solid_faces(1).len(), 3 * 5 * 5);
    assert_eq!(s.solid_faces(2).len(), 3 * 4 * 6);
    assert_eq!(s.solid_faces(7).len(), 3 * 4 * 6);
}

#[test]
fn flat_indices_3d() {
    assert_eq!(iu(1, 2, 3, 3, 4), 57);
    assert_eq!(iv(1, 2, 3, 3, 4), 52);
    assert_eq!(iw(1, 2, 3, 3, 4), 43);
    assert_eq!(ic(1, 2, 3, 3, 4), 43);
}

fn classified() -> Sim3D {
    let mut s = Sim3D::new(4, 4, 4);
    s.classify_cells(&vec![(1, 1, 1), (2, 2, 2), (0, 1, 1), (9, 9, 9)]);
    s
}

#[test]
fn classify_3d() {
    let s = classified();
    for k in 0..4 {
        for j in 0..4 {
            for i in 0..4 {
                let inside = (1..3).contains(&i) && (1..3).contains(&j) && (1..3).contains(&k);
                let expected = if !inside {
                    SOLID
                } else if (i, j, k) == (1, 1, 1) || (i, j, k) == (2, 2, 2) {
                    FLUID
                } else {
                    AIR
                };
                assert_eq!(s.cell_types()[ic(i, j, k, 4, 4)], expected);
            }
        }
    }
}

#[test]
fn solid_faces_3d() {
    let s = classified();
    let u = s.solid_faces(0);
    assert!(u[iu(1, 1, 1, 4, 4)]);
    assert!(!u[iu(2, 1, 1, 4, 4)]);
    assert!(u[iu(0, 1, 1, 4, 4)]);
    assert!(u[iu(4, 1, 1, 4, 4)]);
    let w = s.solid_faces(2);
    assert!(w[iw(1, 1, 1, 4, 4)]);
    assert!(!w[iw(1, 1, 2, 4, 4)]);
}

#[test]
fn pressure_stencil_3d() {
    let s = classified();
    assert_eq!(s.pressure_stencil(1, 1, 1), Some([false, true, false, true, false, true]));
    assert_eq!(s.pressure_stencil(2, 2, 2), Some([true, false, true, false, true, false]));
    assert_eq!(s.pressure_stencil(1, 2, 1), None);
}

#[test]
fn stencil_matches_open_faces_3d() {
    let s = classified();
    let u = s.solid_faces(0);
    let v = s.solid_faces(1);
    let w = s.solid_faces(2);
    let st = s.pressure_stencil(2, 2, 2).unwrap();
    assert_eq!(st[0], !u[iu(2, 2, 2, 4, 4)]);
    assert_eq!(st[1], !u[iu(3, 2, 2, 4, 4)]);
    assert_eq!(st[2], !v[iv(2, 2, 2, 4, 4)]);
    assert_eq!(st[3], !v[iv(2, 3, 2, 4, 4)]);
    assert_eq!(st[4], !w[iw(2, 2, 2, 4, 4)]);
    assert_eq!(st[5], !w[iw(2, 2, 3, 4, 4)]);
}

#[test]
fn splat_and_sample_3d() {
    let s = Sim3D::new(4, 4, 4);
    assert_eq!(
        s.splat_faces(0, 3, 0, 0),
        [Some(3), Some(4), Some(8), Some(9), Some(23), Some(24), Some(28), Some(29)]
    );
    assert_eq!(
        s.splat_faces(0, 4, 3, 3),
        [Some(79), None, None, None, None, None, None, None]
    );
    assert_eq!(s.splat_faces(1, -1, 0, 0), [None; 8]);
    assert_eq!(s.sample_faces(0, 3, 0, 0), Some([3, 4, 8, 9, 23, 24, 28, 29]));
    assert_eq!(s.sample_faces(0, 4, 0, 0), None);
    assert_eq!(s.sample_faces(2, 0, 0, 3), Some([48, 49, 52, 53, 64, 65, 68, 69]));
    assert_eq!(s.sample_faces(2, 0, 0, 4), None);
}

#[test]
fn sampled_faces_are_deposited_3d() {
    let s = Sim3D::new(3, 4, 2);
    for axis in 0..3u8 {
        for k in -1..4 {
            for j in -1..6 {
                for i in -1..5 {
                    if let Some(a) = s.sample_faces(axis, i, j, k) {
                        assert_eq!(s.splat_faces(axis, i, j, k), a.map(Some));
                    }
                }
            }
        }
    }
}
