use invesalius_rs::floodfill::{
    fill_holes_automatically_internal, floodfill_auto_threshold, floodfill_internal,
    generic_floodfill_threshold, generic_floodfill_threshold_inplace,
};
use invesalius_rs::grid::Grid3;

fn vol_i16(dz: usize, dy: usize, dx: usize, data: Vec<i16>) -> Grid3<i16> {
    Grid3::new(data, dz, dy, dx).unwrap()
}

fn vol_u8(dz: usize, dy: usize, dx: usize, data: Vec<u8>) -> Grid3<u8> {
    Grid3::new(data, dz, dy, dx).unwrap()
}

fn vol_u16(dz: usize, dy: usize, dx: usize, data: Vec<u16>) -> Grid3<u16> {
    Grid3::new(data, dz, dy, dx).unwrap()
}

fn zeros_u8(dz: usize, dy: usize, dx: usize) -> Grid3<u8> {
    vol_u8(dz, dy, dx, vec![0u8; dz * dy * dx])
}

#[test]
fn floodfill_single_voxel() {
    // a 3x3x3 volume of zeros with a single 1 at the centre: the fill stays
    // on the centre voxel
    let mut data = vec![0i16; 27];
    data[(1 * 3 + 1) * 3 + 1] = 1;
    let data = vol_i16(3, 3, 3, data);
    let mut out = zeros_u8(3, 3, 3);
    floodfill_internal(&data, 1, 1, 1, 1, 2, &mut out);
    for z in 0..3 {
        for y in 0..3 {
            for x in 0..3 {
                let expected = if (z, y, x) == (1, 1, 1) { 2 } else { 0 };
                assert_eq!(out.get(z, y, x), expected);
            }
        }
    }
}

#[test]
fn floodfill_fills_connected_run() {
    // [1, 1, 0, 1, 1] along x: the seed's run is filled, the run behind the
    // gap is not
    let data = vol_i16(1, 1, 5, vec![1, 1, 0, 1, 1]);
    let mut out = zeros_u8(1, 1, 5);
    floodfill_internal(&data, 0, 0, 0, 1, 9, &mut out);
    assert_eq!(out.data, vec![9, 9, 0, 0, 0]);
}

#[test]
fn floodfill_seed_marked_unconditionally() {
    // the seed is marked even when its data value differs from v
    let data = vol_i16(1, 1, 3, vec![5, 7, 7]);
    let mut out = zeros_u8(1, 1, 3);
    floodfill_internal(&data, 0, 0, 0, 7, 1, &mut out);
    // the seed itself is marked; its neighbour holds 7 and is admitted
    assert_eq!(out.data, vec![1, 1, 1]);
}

#[test]
fn floodfill_prefilled_cells_are_walls() {
    // a cell that already holds the fill value blocks the traversal
    let data = vol_i16(1, 1, 5, vec![1, 1, 1, 1, 1]);
    let mut out = vol_u8(1, 1, 5, vec![0, 0, 9, 0, 0]);
    floodfill_internal(&data, 0, 0, 0, 1, 9, &mut out);
    assert_eq!(out.data, vec![9, 9, 9, 0, 0]);
}

fn full_strel() -> Grid3<u8> {
    vol_u8(3, 3, 3, vec![1u8; 27])
}

fn cross_strel() -> Grid3<u8> {
    let mut s = vec![0u8; 27];
    let at = |z: usize, y: usize, x: usize| (z * 3 + y) * 3 + x;
    s[at(1, 1, 1)] = 1;
    s[at(0, 1, 1)] = 1;
    s[at(2, 1, 1)] = 1;
    s[at(1, 0, 1)] = 1;
    s[at(1, 2, 1)] = 1;
    s[at(1, 1, 0)] = 1;
    s[at(1, 1, 2)] = 1;
    vol_u8(3, 3, 3, s)
}

#[test]
fn floodfill_threshold_parity_cube() {
    // 5x5x5 cube with value 1 exactly on even coordinate sums; with the full
    // 3x3x3 neighbourhood the even-sum set is one component of 63 voxels
    let mut data = vec![0i16; 125];
    for z in 0..5 {
        for y in 0..5 {
            for x in 0..5 {
                if (x + y + z) % 2 == 0 {
                    data[(z * 5 + y) * 5 + x] = 1;
                }
            }
        }
    }
    let data = vol_i16(5, 5, 5, data);
    let strct = full_strel();
    let mut out = zeros_u8(5, 5, 5);
    generic_floodfill_threshold(&data, &vec![(0, 0, 0)], 1, 1, 7, &strct, &mut out);
    let mut filled = 0usize;
    for z in 0..5 {
        for y in 0..5 {
            for x in 0..5 {
                if out.get(z, y, x) == 7 {
                    filled += 1;
                    assert_eq!((x + y + z) % 2, 0);
                } else {
                    assert_eq!(out.get(z, y, x), 0);
                }
            }
        }
    }
    assert_eq!(filled, 63);
}

#[test]
fn floodfill_threshold_cross_cannot_leave_parity_class() {
    // with the 6-connected cross every neighbour flips the coordinate-sum
    // parity, so on the parity cube only the seed is admitted
    let mut data = vec![0i16; 125];
    for z in 0..5 {
        for y in 0..5 {
            for x in 0..5 {
                if (x + y + z) % 2 == 0 {
                    data[(z * 5 + y) * 5 + x] = 1;
                }
            }
        }
    }
    let data = vol_i16(5, 5, 5, data);
    let strct = cross_strel();
    let mut out = zeros_u8(5, 5, 5);
    generic_floodfill_threshold(&data, &vec![(0, 0, 0)], 1, 1, 7, &strct, &mut out);
    let filled = out.data.iter().filter(|&&v| v == 7).count();
    assert_eq!(filled, 1);
    assert_eq!(out.get(0, 0, 0), 7);
}

#[test]
fn floodfill_threshold_rejects_out_of_window_seed() {
    let data = vol_i16(1, 1, 3, vec![9, 5, 5]);
    let strct = cross_strel();
    let mut out = zeros_u8(1, 1, 3);
    generic_floodfill_threshold(&data, &vec![(0, 0, 0)], 4, 6, 1, &strct, &mut out);
    assert_eq!(out.data, vec![0, 0, 0]);
}

#[test]
fn floodfill_threshold_inplace_overwrites_volume() {
    let mut data = vol_i16(1, 1, 5, vec![5, 5, 9, 5, 5]);
    let strct = cross_strel();
    generic_floodfill_threshold_inplace(&mut data, &vec![(0, 0, 0)], 4, 6, -3, &strct);
    assert_eq!(data.data, vec![-3, -3, 9, 5, 5]);
}

#[test]
fn floodfill_auto_threshold_window_drifts() {
    // a ten percent tolerance window follows the local intensity: 10 admits
    // 11, 11 admits neither 13 nor more
    let data = vol_i16(1, 1, 4, vec![10, 11, 13, 20]);
    let mut tlo = vec![0i16; 65536];
    let mut thi = vec![0i16; 65536];
    for raw in 0..65536usize {
        let val = (raw as i32 - 32768) as f32;
        tlo[raw] = (val * 0.9).ceil() as i16;
        thi[raw] = (val * 1.1).floor() as i16;
    }
    let mut out = zeros_u8(1, 1, 4);
    floodfill_auto_threshold(&data, &vec![(0, 0, 0)], &tlo, &thi, 1, &mut out);
    assert_eq!(out.data, vec![1, 1, 0, 0]);
}

#[test]
fn fill_holes_reports_no_change() {
    // the single non-zero label is larger than max_size: nothing changes
    let labels = vol_u16(2, 2, 2, vec![1; 8]);
    let mut mask = vol_u8(2, 2, 2, vec![200; 8]);
    let changed = fill_holes_automatically_internal(&mut mask, &labels, 1, 3);
    assert!(!changed);
    assert_eq!(mask.data, vec![200; 8]);
}

#[test]
fn fill_holes_writes_reserved_value() {
    // label 2 occurs once: its voxel receives 254, the rest stay
    let labels = vol_u16(1, 1, 4, vec![1, 1, 1, 2]);
    let mut mask = vol_u8(1, 1, 4, vec![10, 20, 30, 40]);
    let changed = fill_holes_automatically_internal(&mut mask, &labels, 2, 1);
    assert!(changed);
    assert_eq!(mask.data, vec![10, 20, 30, 254]);
}

#[test]
fn fill_holes_background_alone_does_not_trigger() {
    // a small background (label 0) fragment does not trigger a change on
    // its own: only non-zero labels do
    let labels = vol_u16(1, 1, 4, vec![0, 1, 1, 1]);
    let mut mask = vol_u8(1, 1, 4, vec![7, 8, 9, 10]);
    let changed = fill_holes_automatically_internal(&mut mask, &labels, 1, 2);
    assert!(!changed);
    assert_eq!(mask.data, vec![7, 8, 9, 10]);
}

#[test]
fn fill_holes_background_fragment_filled_on_change() {
    // once a small non-zero label triggers the change, a small background
    // fragment receives 254 along with it
    let labels = vol_u16(1, 1, 4, vec![0, 1, 1, 2]);
    let mut mask = vol_u8(1, 1, 4, vec![7, 8, 9, 10]);
    let changed = fill_holes_automatically_internal(&mut mask, &labels, 2, 1);
    assert!(changed);
    assert_eq!(mask.data, vec![254, 8, 9, 254]);
}
