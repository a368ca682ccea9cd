use invesalius_rs::grid::{Grid2, Grid3};
use invesalius_rs::mips::{lmip, max_projection};

fn vol_i16(dz: usize, dy: usize, dx: usize, data: Vec<i16>) -> Grid3<i16> {
    Grid3::new(data, dz, dy, dx).unwrap()
}

fn img_i16(dy: usize, dx: usize, data: Vec<i16>) -> Grid2<i16> {
    Grid2::new(data, dy, dx).unwrap()
}

#[test]
fn lmip_ramp_reaches_global_max() {
    // V[z, 0, 0] = z on shape (4, 1, 1), window [1, 3]: the ramp never
    // descends, so the output is the final maximum 3
    let image = vol_i16(4, 1, 1, vec![0, 1, 2, 3]);
    let mut out = img_i16(1, 1, vec![0]);
    lmip(&image, 0, 1, 3, &mut out);
    assert_eq!(out.get(0, 0), 3);
}

#[test]
fn lmip_stops_at_first_windowed_peak() {
    // the ray rises to 5 inside the window, then descends: the later higher
    // sample 6 is never reached
    let image = vol_i16(4, 1, 1, vec![1, 5, 2, 6]);
    let mut out = img_i16(1, 1, vec![0]);
    lmip(&image, 0, 4, 6, &mut out);
    assert_eq!(out.get(0, 0), 5);
}

#[test]
fn lmip_without_window_keeps_running_max() {
    // no sample enters the window, so descents never terminate the ray and
    // the running maximum survives
    let image = vol_i16(4, 1, 1, vec![1, 5, 2, 6]);
    let mut out = img_i16(1, 1, vec![0]);
    lmip(&image, 0, 100, 200, &mut out);
    assert_eq!(out.get(0, 0), 6);
}

#[test]
fn lmip_axis_shapes() {
    // axis 1 drops the y extent: shape (2, 3, 2) projects onto (2, 2)
    let mut data = vec![0i16; 12];
    for (i, cell) in data.iter_mut().enumerate() {
        *cell = i as i16;
    }
    let image = vol_i16(2, 3, 2, data);
    let mut out = img_i16(2, 2, vec![0; 4]);
    lmip(&image, 1, 100, 200, &mut out);
    // rays along y: the maximum sits on the last y slice
    assert_eq!(out.get(0, 0), 4);
    assert_eq!(out.get(0, 1), 5);
    assert_eq!(out.get(1, 0), 10);
    assert_eq!(out.get(1, 1), 11);
}

#[test]
fn max_projection_handles_negative_values() {
    let image = vol_i16(3, 1, 2, vec![-10, -3, -7, -9, -8, -5]);
    let mut out = img_i16(1, 2, vec![0, 0]);
    max_projection(&image, 0, &mut out);
    assert_eq!(out.get(0, 0), -7);
    assert_eq!(out.get(0, 1), -3);
}

#[test]
fn max_projection_along_x() {
    let image = vol_i16(1, 2, 3, vec![4, 9, 1, 3, 2, 8]);
    let mut out = img_i16(1, 2, vec![0, 0]);
    max_projection(&image, 2, &mut out);
    assert_eq!(out.get(0, 0), 9);
    assert_eq!(out.get(0, 1), 8);
}
