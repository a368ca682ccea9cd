use invesalius_rs::grid::{wrap_index, Grid2, Grid3};
use invesalius_rs::mask_cut::mask_cut;

#[test]
fn grid3_rejects_length_mismatch() {
    assert!(Grid3::<i16>::new(vec![0; 5], 2, 1, 3).is_none());
    assert!(Grid3::<i16>::new(vec![0; 6], 2, 1, 3).is_some());
    assert!(Grid3::<i16>::new(Vec::new(), 0, 4, 4).is_some());
    assert!(Grid2::<u8>::new(vec![0; 6], 2, 3).is_some());
    assert!(Grid2::<u8>::new(vec![0; 5], 2, 3).is_none());
}

#[test]
fn grid3_set_and_get_round_trip() {
    let mut g = Grid3::new(vec![0i16; 24], 2, 3, 4).unwrap();
    g.set(1, 2, 3, 42);
    g.set(0, 0, 0, -7);
    assert_eq!(g.get(1, 2, 3), 42);
    assert_eq!(g.get(0, 0, 0), -7);
    assert_eq!(g.get(1, 2, 2), 0);
}

#[test]
fn wrap_index_is_periodic_by_one_span() {
    assert_eq!(wrap_index(-1, 5), 4);
    assert_eq!(wrap_index(-5, 5), 0);
    assert_eq!(wrap_index(0, 5), 0);
    assert_eq!(wrap_index(3, 5), 3);
    assert_eq!(wrap_index(5, 5), 0);
    assert_eq!(wrap_index(9, 5), 4);
}

#[test]
fn mask_cut_clears_everything_in_frame() {
    // an all-ones mask with every voxel projected in frame clears an
    // all-255 segmentation completely
    let mut out = Grid3::new(vec![255u8; 8], 2, 2, 2).unwrap();
    let mask = Grid2::new(vec![1u8; 1], 1, 1).unwrap();
    let proj = vec![Some((0usize, 0usize)); 8];
    mask_cut(&mut out, &mask, &proj);
    assert_eq!(out.data, vec![0u8; 8]);
}

#[test]
fn mask_cut_respects_gates() {
    // voxel 0: in segmentation, painted pixel -> cleared
    // voxel 1: low value (not in segmentation) -> kept
    // voxel 2: projects onto an unpainted pixel -> kept
    // voxel 3: behind the view or beyond depth (no pixel) -> kept
    let mut out = Grid3::new(vec![255, 100, 200, 255], 1, 1, 4).unwrap();
    let mask = Grid2::new(vec![1, 0], 1, 2).unwrap();
    let proj = vec![Some((0usize, 0usize)), Some((0, 0)), Some((1, 0)), None];
    mask_cut(&mut out, &mask, &proj);
    assert_eq!(out.data, vec![0, 100, 200, 255]);
}
