use fluid_sim::buckets::{bucket_key2, bucket_key3, window_cells, window_cells3, Buckets};

#[test]
fn window_clipped_at_corner() {
    assert_eq!(window_cells(0, 0, 1, 5, 5), vec![(0, 0), (1, 0), (0, 1), (1, 1)]);
    assert_eq!(window_cells(9, 9, 1, 10, 10), vec![(8, 8), (9, 8), (8, 9), (9, 9)]);
}

#[test]
fn window_full_and_empty() {
    let w = window_cells(2, 2, 2, 10, 10);
    assert_eq!(w.len(), 25);
    assert_eq!(w[0], (0, 0));
    assert_eq!(w[24], (4, 4));
    assert_eq!(w[6], (1, 1));
    assert_eq!(window_cells(2, 2, -1, 10, 10), vec![]);
    assert_eq!(window_cells(-5, 2, 1, 10, 10), vec![]);
    assert_eq!(window_cells(3, 3, 1, 0, 10), vec![]);
}

#[test]
fn window_matches_direct_scan() {
    for &(ci, cj, span) in &[(0, 0, 2), (3, 1, 1), (-1, 4, 2), (7, 7, 3), (2, 2, 0)] {
        let mut expected = Vec::new();
        for dj in -span..=span {
            for di in -span..=span {
                let i: i32 = ci + di;
                let j: i32 = cj + dj;
                if i >= 0 && j >= 0 && (i as usize) < 6 && (j as usize) < 5 {
                    expected.push((i as usize, j as usize));
                }
            }
        }
        assert_eq!(window_cells(ci, cj, span, 6, 5), expected);
    }
}

#[test]
fn window_3d() {
    let w = window_cells3(0, 0, 0, 1, 3, 3, 3);
    assert_eq!(
        w,
        vec![(0, 0, 0), (1, 0, 0), (0, 1, 0), (1, 1, 0), (0, 0, 1), (1, 0, 1), (0, 1, 1), (1, 1, 1)]
    );
    assert_eq!(window_cells3(1, 1, 1, 1, 3, 3, 3).len(), 27);
}

#[test]
fn keys() {
    assert_eq!(bucket_key2(3, 2, 10), Some(23));
    assert_eq!(bucket_key2(1, usize::MAX, 2), None);
    assert_eq!(bucket_key3(1, 2, 3, 4, 5), Some(69));
    assert_eq!(bucket_key3(0, 0, usize::MAX, 0, 2), None);
    assert_eq!(bucket_key3(7, 0, 0, 0, 0), Some(7));
}

#[test]
fn build_buckets() {
    let b = Buckets::build(4, &vec![Some(1), None, Some(1), Some(3), Some(7)]);
    assert_eq!(b.len(), 4);
    assert_eq!(b.bucket(0), &Vec::<u32>::new());
    assert_eq!(b.bucket(1), &vec![0u32, 2]);
    assert_eq!(b.bucket(2), &Vec::<u32>::new());
    assert_eq!(b.bucket(3), &vec![3u32]);
}

#[test]
fn candidates_above_k() {
    let b = Buckets::build(4, &vec![Some(1), None, Some(1), Some(3), Some(7)]);
    assert_eq!(b.candidates(0, &vec![1, 3]), vec![2, 3]);
    assert_eq!(b.candidates(2, &vec![1, 3]), vec![3]);
    assert_eq!(b.candidates(0, &vec![3, 1]), vec![3, 2]);
    assert_eq!(b.candidates(5, &vec![0, 1, 2, 3]), vec![]);
}
