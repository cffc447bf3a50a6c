use fluid_sim::sim2d::{idx_c, idx_u, idx_v, Sim2D, AIR, FLUID, SOLID};

fn wall(s: &Sim2D, i: usize, j: usize) -> u8 {
    s.walls()[idx_c(i, j, s.grid_w())]
}

fn cell(s: &Sim2D, i: usize, j: usize) -> u8 {
    s.cell_types()[idx_c(i, j, s.grid_w())]
}

#[test]
fn new_grid_is_all_air_without_walls() {
    let s = Sim2D::new(4, 3);
    assert_eq!(s.grid_w(), 4);
    assert_eq!(s.grid_h(), 3);
    assert_eq!(s.cell_types(), &vec![AIR; 12]);
    assert_eq!(s.walls(), &vec![0u8; 12]);
}

#[test]
fn empty_grid() {
    let s = Sim2D::new(0, 0);
    assert_eq!(s.cell_types().len(), 0);
    let (u, v) = s.solid_boundary_faces();
    assert_eq!(u.len(), 0);
    assert_eq!(v.len(), 0);
}

#[test]
fn flat_indices() {
    assert_eq!(idx_u(2, 1, 4), 7);
    assert_eq!(idx_v(2, 1, 4), 6);
    assert_eq!(idx_c(2, 1, 4), 6);
    assert_eq!(idx_c(0, 0, 4), 0);
}

#[test]
fn paint_wall_round_brush() {
    let mut s = Sim2D::new(6, 6);
    s.paint_wall(2, 2, 1, 1);
    for (i, j) in [(2, 2), (1, 2), (3, 2), (2, 1), (2, 3)] {
        assert_eq!(wall(&s, i, j), 1);
    }
    for (i, j) in [(1, 1), (3, 3), (1, 3), (3, 1), (4, 2)] {
        assert_eq!(wall(&s, i, j), 0);
    }
    assert_eq!(s.cell_types(), &vec![AIR; 36]);
}

#[test]
fn paint_wall_never_touches_border() {
    let mut s = Sim2D::new(6, 6);
    s.paint_wall(0, 0, 3, 1);
    let painted: Vec<(usize, usize)> = (0..6)
        .flat_map(|j| (0..6).map(move |i| (i, j)))
        .filter(|&(i, j)| wall(&s, i, j) != 0)
        .collect();
    assert_eq!(painted, vec![(1, 1), (2, 1), (1, 2), (2, 2)]);
}

#[test]
fn paint_wall_negative_radius_paints_nothing() {
    let mut s = Sim2D::new(6, 6);
    s.paint_wall(3, 3, -1, 1);
    assert_eq!(s.walls(), &vec![0u8; 36]);
}

#[test]
fn paint_wall_far_outside_paints_nothing() {
    let mut s = Sim2D::new(6, 6);
    s.paint_wall(i32::MAX, i32::MIN, 2, 1);
    assert_eq!(s.walls(), &vec![0u8; 36]);
}

#[test]
fn paint_last_wins_and_is_idempotent() {
    let mut s = Sim2D::new(8, 8);
    s.paint_wall(4, 4, 2, 1);
    let once = s.walls().clone();
    s.paint_wall(4, 4, 2, 1);
    assert_eq!(s.walls(), &once);
    s.paint_wall(4, 4, 2, 0);
    assert_eq!(s.walls(), &vec![0u8; 64]);
}

#[test]
fn clear_walls_removes_all() {
    let mut s = Sim2D::new(6, 6);
    s.paint_wall(3, 3, 2, 1);
    s.clear_walls();
    assert_eq!(s.walls(), &vec![0u8; 36]);
}

fn classified() -> Sim2D {
    let mut s = Sim2D::new(6, 5);
    s.paint_wall(2, 2, 0, 1);
    s.classify_cells(&vec![(3, 2), (0, 0), (10, 10), (2, 2), (-4, 2)]);
    s
}

#[test]
fn classify_marks_border_walls_and_fluid() {
    let s = classified();
    for j in 0..5 {
        for i in 0..6 {
            let expected = if i == 0 || j == 0 || i == 5 || j == 4 || (i, j) == (2, 2) {
                SOLID
            } else if (i, j) == (3, 2) {
                FLUID
            } else {
                AIR
            };
            assert_eq!(cell(&s, i, j), expected, "cell ({}, {})", i, j);
        }
    }
}

#[test]
fn classify_forgets_old_fluid() {
    let mut s = classified();
    s.classify_cells(&vec![]);
    assert_eq!(cell(&s, 3, 2), AIR);
    assert_eq!(cell(&s, 2, 2), SOLID);
}

#[test]
fn solid_boundary_faces_close_walls_and_edges() {
    let s = classified();
    let (u, v) = s.solid_boundary_faces();
    assert_eq!(u.len(), 7 * 5);
    assert_eq!(v.len(), 6 * 6);
    for j in 0..5 {
        assert!(u[idx_u(0, j, 6)]);
        assert!(u[idx_u(6, j, 6)]);
    }
    for i in 0..6 {
        assert!(v[idx_v(i, 0, 6)]);
        assert!(v[idx_v(i, 5, 6)]);
    }
    // faces of the wall cell (2, 2)
    assert!(u[idx_u(2, 2, 6)]);
    assert!(u[idx_u(3, 2, 6)]);
    assert!(v[idx_v(2, 2, 6)]);
    assert!(v[idx_v(2, 3, 6)]);
    // faces between open cells
    assert!(!u[idx_u(4, 2, 6)]);
    assert!(!v[idx_v(3, 3, 6)]);
    assert!(!v[idx_v(3, 2, 6)]);
}

#[test]
fn pressure_stencil_of_fluid_and_air() {
    let s = classified();
    assert_eq!(s.pressure_stencil(3, 2), Some((false, true, true, true)));
    assert_eq!(s.pressure_stencil(1, 1), None);
}

#[test]
fn stencil_matches_open_faces() {
    let s = classified();
    let (u, v) = s.solid_boundary_faces();
    let (l, r, up, down) = s.pressure_stencil(3, 2).unwrap();
    assert_eq!(l, !u[idx_u(3, 2, 6)]);
    assert_eq!(r, !u[idx_u(4, 2, 6)]);
    assert_eq!(up, !v[idx_v(3, 2, 6)]);
    assert_eq!(down, !v[idx_v(3, 3, 6)]);
}

#[test]
fn classified_border_faces_closed() {
    let s = classified();
    let (u, v) = s.solid_boundary_faces();
    for i in 0..6 {
        assert!(u[idx_u(i, 0, 6)] && u[idx_u(i + 1, 0, 6)]);
        assert!(v[idx_v(i, 0, 6)] && v[idx_v(i, 1, 6)]);
    }
}

#[test]
fn solid_interior_test() {
    let s = classified();
    assert!(s.is_solid_interior(2, 2));
    assert!(!s.is_solid_interior(0, 0));
    assert!(!s.is_solid_interior(3, 2));
    assert!(!s.is_solid_interior(-1, 7));
}

#[test]
fn deposit_faces() {
    let s = Sim2D::new(6, 5);
    assert_eq!(s.p2g_u_faces(1, 1), [Some(8), Some(9), Some(15), Some(16)]);
    assert_eq!(s.p2g_u_faces(5, 4), [Some(33), Some(34), None, None]);
    assert_eq!(s.p2g_u_faces(-1, 0), [None, None, None, None]);
    assert_eq!(s.p2g_u_faces(6, 0), [None, None, None, None]);
    assert_eq!(s.p2g_v_faces(5, 1), [Some(11), None, Some(17), None]);
    assert_eq!(s.p2g_v_faces(0, 4), [Some(24), Some(25), Some(30), Some(31)]);
    assert_eq!(s.p2g_v_faces(0, 5), [None, None, None, None]);
}

#[test]
fn sample_faces() {
    let s = Sim2D::new(6, 5);
    assert_eq!(s.sample_u_faces(1, 1), Some([8, 9, 15, 16]));
    assert_eq!(s.sample_u_faces(5, 4), None);
    assert_eq!(s.sample_u_faces(5, 3), Some([26, 27, 33, 34]));
    assert_eq!(s.sample_v_faces(4, 4), Some([28, 29, 34, 35]));
    assert_eq!(s.sample_v_faces(5, 0), None);
    assert_eq!(s.sample_v_faces(0, -1), None);
}

#[test]
fn sampled_faces_are_deposited() {
    let s = Sim2D::new(6, 5);
    for j in -1..6 {
        for i in -1..7 {
            if let Some(a) = s.sample_u_faces(i, j) {
                assert_eq!(s.p2g_u_faces(i, j), a.map(Some));
            }
            if let Some(a) = s.sample_v_faces(i, j) {
                assert_eq!(s.p2g_v_faces(i, j), a.map(Some));
            }
        }
    }
}

#[test]
fn crosses() {
    let s = Sim2D::new(6, 5);
    assert_eq!(s.cell_cross(2, 2), [14, 13, 15, 8, 20]);
    assert_eq!(s.u_cross(1, 1), [8, 7, 9, 1, 15]);
    assert_eq!(s.u_cross(5, 3), [26, 25, 27, 19, 33]);
    assert_eq!(s.v_cross(1, 1), [7, 6, 8, 1, 13]);
    assert_eq!(s.v_cross(4, 4), [28, 27, 29, 22, 34]);
}
