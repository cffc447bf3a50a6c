use fluid_sim::jitter::{lattice2, lattice3, lcg_next, splash_seed2, splash_seed3, Lcg, RESET_SEED};

#[test]
fn lcg_steps() {
    assert_eq!(lcg_next(12345), 87628868);
    assert_eq!(lcg_next(0), 1013904223);
    let mut g = Lcg::new(RESET_SEED);
    assert_eq!(g.next_u32(), 87628868);
    assert_eq!(g.next_u32(), 71072467);
}

#[test]
fn lcg_is_reproducible() {
    let mut a = Lcg::new(7);
    let mut b = Lcg::new(7);
    for _ in 0..100 {
        assert_eq!(a.next_u32(), b.next_u32());
    }
}

#[test]
fn splash_seeds() {
    assert_eq!(splash_seed2(100, 200), 792100);
    assert_eq!(splash_seed2(u32::MAX, 0), 4294959377);
    assert_eq!(splash_seed3(100, 200, 17), 792117);
    assert_eq!(splash_seed3(u32::MAX, 0, 7919), 0);
}

#[test]
fn lattice_2d() {
    assert_eq!(lattice2(5, 3, 4), vec![(0, 0), (1, 0), (2, 0), (0, 1), (1, 1)]);
    let full = lattice2(20, 3, 4);
    assert_eq!(full.len(), 12);
    assert_eq!(full[11], (2, 3));
    assert_eq!(lattice2(3, 0, 5), vec![]);
    assert_eq!(lattice2(0, 3, 5), vec![]);
    assert_eq!(lattice2(2, usize::MAX, usize::MAX), vec![(0, 0), (1, 0)]);
}

#[test]
fn lattice_3d() {
    assert_eq!(
        lattice3(5, 2, 2, 2),
        vec![(0, 0, 0), (1, 0, 0), (0, 1, 0), (1, 1, 0), (0, 0, 1)]
    );
    assert_eq!(lattice3(100, 2, 2, 2).len(), 8);
    assert_eq!(lattice3(100, 2, 0, 2), vec![]);
}
