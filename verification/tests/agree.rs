//! End-to-end runs: the float steps (fold, bin, distances, stop radius)
//! are done here with the periodic-cell crate, around the library's
//! checks, mesh, lists, walk and packed layout.

use linkcell::search::{knearest_linked, knearest_linked_into};
use linkcell::mesh::Mesh;
use linkcell::packed::{frame_span, pack_indices, pack_keys, validate_frames, validate_packed};
use linkcell::select::{active_indices, brute_rows, validate_search};
use linkcell::Error;
use minimage::Cell;

type Rows = Vec<(usize, Vec<(u64, usize)>)>;

fn almost(a: f64, b: f64) -> bool {
    (a - b).abs() <= 1e-12 * (1.0 + a.abs().max(b.abs()))
}

fn bins_1d(width: f64, edge: f64) -> Result<i32, Error> {
    let n = (width / edge).floor().max(1.0);
    if !n.is_finite() || n > 1_000_000.0 {
        return Err(Error::TooManyCells);
    }
    Ok(n as i32)
}

fn search(
    xyz: &[[f64; 3]],
    simbox: &Cell,
    k: usize,
    mask: Option<&[bool]>,
    cell_hint: Option<f64>,
    out_nn: Option<&mut [i32]>,
) -> Result<Rows, Error> {
    let n = xyz.len();
    validate_search(n, k, mask)?;
    let active = active_indices(n, mask);
    if active.is_empty() {
        return Ok(Vec::new());
    }
    let mut edge = cell_hint.unwrap_or(3.0);
    if !edge.is_finite() || edge <= 0.0 {
        edge = 3.0;
    }
    let w = simbox.widths();
    edge = edge.min(w[0]).min(w[1]).min(w[2]);
    let nx = bins_1d(w[0], edge)?;
    let ny = bins_1d(w[1], edge)?;
    let nz = bins_1d(w[2], edge)?;
    let mesh = Mesh::new(nx, ny, nz)?;
    let cell_min = (w[0] / f64::from(nx))
        .min(w[1] / f64::from(ny))
        .min(w[2] / f64::from(nz));
    let mut folded = vec![[0.0; 3]; n];
    let mut raw = vec![(0i32, 0i32, 0i32); n];
    for &i in &active {
        let s = simbox.fractional(xyz[i]);
        folded[i] = simbox.cartesian(s);
        raw[i] = (
            (s[0] * f64::from(nx)) as i32,
            (s[1] * f64::from(ny)) as i32,
            (s[2] * f64::from(nz)) as i32,
        );
    }
    let bounds: Vec<u64> = (0..=mesh.max_reach())
        .map(|r| {
            let b = f64::from(r) * cell_min;
            (b * b).to_bits()
        })
        .collect();
    let key = |i: usize, j: usize, na: i32, nb: i32, nc: i32| -> u64 {
        simbox
            .dist2_shifted(folded[i], folded[j], simbox.lattice_shift(na, nb, nc))
            .to_bits()
    };
    match out_nn {
        Some(out) => {
            assert_eq!(n.checked_mul(k), Some(out.len()));
            Ok(knearest_linked_into(mesh, &raw, &active, k, &bounds, &key, out))
        }
        None => Ok(knearest_linked(mesh, &raw, &active, k, &bounds, &key)),
    }
}

fn rows_of(n: usize, rows: Rows) -> Vec<(Vec<usize>, Vec<f64>)> {
    let mut out = vec![(Vec::new(), Vec::new()); n];
    for (i, pairs) in rows {
        out[i].0 = pairs.iter().map(|p| p.1).collect();
        out[i].1 = pairs.iter().map(|p| f64::from_bits(p.0)).collect();
    }
    out
}

fn knearest(
    xyz: &[[f64; 3]],
    b: &Cell,
    k: usize,
    mask: Option<&[bool]>,
    hint: Option<f64>,
) -> Result<Vec<(Vec<usize>, Vec<f64>)>, Error> {
    Ok(rows_of(xyz.len(), search(xyz, b, k, mask, hint, None)?))
}

fn knearest_brute(
    xyz: &[[f64; 3]],
    b: &Cell,
    k: usize,
    mask: Option<&[bool]>,
) -> Result<Vec<(Vec<usize>, Vec<f64>)>, Error> {
    let key = |i: usize, j: usize| -> u64 { b.dist2_euclidean(xyz[i], xyz[j]).to_bits() };
    Ok(rows_of(xyz.len(), brute_rows(xyz.len(), k, mask, &key)?))
}

fn knearest_into_d2(
    xyz: &[[f64; 3]],
    b: &Cell,
    k: usize,
    mask: Option<&[bool]>,
    hint: Option<f64>,
    out_nn: &mut [i32],
    out_d2: Option<&mut [f64]>,
) -> Result<(), Error> {
    let n = xyz.len();
    validate_packed(n, k, out_nn.len(), out_d2.as_ref().map(|d| d.len()))?;
    let nothing: Rows = Vec::new();
    pack_indices(&nothing, n, k, out_nn);
    let rows = search(xyz, b, k, mask, hint, Some(&mut *out_nn))?;
    if let Some(d2) = out_d2 {
        let mut keys = vec![0u64; out_nn.len()];
        pack_keys(&rows, n, k, f64::NAN.to_bits(), &mut keys);
        for (slot, key) in d2.iter_mut().zip(keys) {
            *slot = f64::from_bits(key);
        }
    }
    Ok(())
}

fn knearest_into(
    xyz: &[[f64; 3]],
    b: &Cell,
    k: usize,
    mask: Option<&[bool]>,
    hint: Option<f64>,
    out: &mut [i32],
) -> Result<(), Error> {
    validate_packed(xyz.len(), k, out.len(), None)?;
    knearest_into_d2(xyz, b, k, mask, hint, out, None)
}

fn hex_prism() -> Cell {
    Cell::from_vectors(
        [10.0, 0.0, 0.0],
        [5.0, 8.660254037844386, 0.0],
        [0.0, 0.0, 10.0],
        [0.0, 0.0, 0.0],
    )
    .unwrap()
}

#[test]
fn rejects_zero_k() {
    let b = Cell::ortho(10.0, 10.0, 10.0).unwrap();
    let xyz = [[0.0, 0.0, 0.0]];
    assert!(knearest(&xyz, &b, 0, None, None).is_err());
}

#[test]
fn two_points_k1() {
    let b = Cell::ortho(10.0, 10.0, 10.0).unwrap();
    let xyz = [[0.0, 0.0, 0.0], [1.0, 0.0, 0.0]];
    let rows = knearest(&xyz, &b, 1, None, Some(2.0)).unwrap();
    assert_eq!(rows[0].0, vec![1]);
    assert_eq!(rows[1].0, vec![0]);
    assert!(almost(rows[0].1[0], 1.0));
}

#[test]
fn periodic_image_is_nearer() {
    let b = Cell::ortho(10.0, 10.0, 10.0).unwrap();
    let xyz = [[0.2, 0.0, 0.0], [9.4, 0.0, 0.0]];
    let rows = knearest(&xyz, &b, 1, None, Some(2.0)).unwrap();
    assert_eq!(rows[0].0, vec![1]);
    assert!(almost(rows[0].1[0], 0.8 * 0.8));
}

#[test]
fn mask_drops_sources_and_candidates() {
    let b = Cell::ortho(10.0, 10.0, 10.0).unwrap();
    let xyz = [[0.0, 0.0, 0.0], [1.0, 0.0, 0.0], [0.0, 1.0, 0.0]];
    let mask = [true, false, true];
    let rows = knearest(&xyz, &b, 1, Some(&mask), None).unwrap();
    assert!(rows[1].0.is_empty());
    assert_eq!(rows[0].0, vec![2]);
    assert_eq!(rows[2].0, vec![0]);
}

#[test]
fn agrees_with_brute_force_on_a_random_cell() {
    let b = Cell::ortho(12.0, 11.0, 13.0).unwrap();
    let mut xyz = Vec::new();
    let mut s: u64 = 1;
    for _ in 0..64 {
        s = s.wrapping_mul(6364136223846793005).wrapping_add(1);
        let x = ((s >> 11) as f64 / (1u64 << 53) as f64) * 12.0;
        s = s.wrapping_mul(6364136223846793005).wrapping_add(1);
        let y = ((s >> 11) as f64 / (1u64 << 53) as f64) * 11.0;
        s = s.wrapping_mul(6364136223846793005).wrapping_add(1);
        let z = ((s >> 11) as f64 / (1u64 << 53) as f64) * 13.0;
        xyz.push([x, y, z]);
    }
    let cell = knearest(&xyz, &b, 4, None, Some(2.5)).unwrap();
    let brute = knearest_brute(&xyz, &b, 4, None).unwrap();
    for i in 0..xyz.len() {
        assert_eq!(cell[i].0, brute[i].0, "source {i}");
        for (a, c) in cell[i].1.iter().zip(brute[i].1.iter()) {
            assert!(almost(*a, *c), "{a} vs {c}");
        }
    }
}

#[test]
fn triclinic_image_beats_the_cartesian_far_point() {
    let b = hex_prism();
    let xyz = [[0.2, 0.1, 1.0], [9.7, 0.1, 1.0]];
    let rows = knearest(&xyz, &b, 1, None, Some(2.0)).unwrap();
    assert_eq!(rows[0].0, vec![1]);
    let brute = knearest_brute(&xyz, &b, 1, None).unwrap();
    assert_eq!(rows[0].0, brute[0].0);
    assert!(almost(rows[0].1[0], brute[0].1[0]));
    assert!(rows[0].1[0] < 1.0);
}

#[test]
fn agrees_with_brute_force_on_a_sheared_cell() {
    let b = hex_prism();
    let mut xyz = Vec::new();
    let mut s: u64 = 7;
    for _ in 0..48 {
        s = s.wrapping_mul(6364136223846793005).wrapping_add(1);
        let u = (s >> 11) as f64 / (1u64 << 53) as f64;
        s = s.wrapping_mul(6364136223846793005).wrapping_add(1);
        let v = (s >> 11) as f64 / (1u64 << 53) as f64;
        s = s.wrapping_mul(6364136223846793005).wrapping_add(1);
        let w = (s >> 11) as f64 / (1u64 << 53) as f64;
        xyz.push([10.0 * u + 5.0 * v, 8.660254037844386 * v, 10.0 * w]);
    }
    let cell = knearest(&xyz, &b, 4, None, Some(2.0)).unwrap();
    let brute = knearest_brute(&xyz, &b, 4, None).unwrap();
    for i in 0..xyz.len() {
        assert_eq!(cell[i].0, brute[i].0, "source {i}");
        for (a, c) in cell[i].1.iter().zip(brute[i].1.iter()) {
            assert!(almost(*a, *c), "{a} vs {c} at {i}");
        }
    }
}

#[test]
fn empty_xyz_is_error_empty() {
    let b = Cell::ortho(10.0, 10.0, 10.0).unwrap();
    let xyz: [[f64; 3]; 0] = [];
    let err = knearest(&xyz, &b, 1, None, None).unwrap_err();
    assert_eq!(err, Error::Empty);
    assert_eq!(err.message(), "no points");
    assert_eq!(knearest_brute(&xyz, &b, 1, None).unwrap_err(), Error::Empty);
    let mut out: [i32; 0] = [];
    assert_eq!(
        knearest_into(&xyz, &b, 1, None, None, &mut out).unwrap_err(),
        Error::Empty
    );
}

#[test]
fn k_zero_is_error_zero_k() {
    let b = Cell::ortho(10.0, 10.0, 10.0).unwrap();
    let xyz = [[0.0, 0.0, 0.0]];
    let err = knearest(&xyz, &b, 0, None, None).unwrap_err();
    assert_eq!(err, Error::ZeroK);
    assert_eq!(err.message(), "k must be at least 1");
    assert_eq!(knearest_brute(&xyz, &b, 0, None).unwrap_err(), Error::ZeroK);
    let mut out: [i32; 0] = [];
    assert_eq!(
        knearest_into(&xyz, &b, 0, None, None, &mut out).unwrap_err(),
        Error::ZeroK
    );
}

#[test]
fn short_out_buffer_is_not_empty() {
    let b = Cell::ortho(10.0, 10.0, 10.0).unwrap();
    let two = [[0.0, 0.0, 0.0], [1.0, 0.0, 0.0]];
    let empty: [[f64; 3]; 0] = [];
    let cases: &[(&str, &[[f64; 3]], usize, usize)] = &[
        ("n=2 k=1 out=1", &two, 1, 1),
        ("n=2 k=2 out=2", &two, 2, 2),
        ("n=2 k=1 out=8", &two, 1, 8),
        ("n=0 k=1 out=1", &empty, 1, 1),
    ];
    for &(name, xyz, k, out_len) in cases {
        let mut out = vec![-1i32; out_len];
        let err = knearest_into(xyz, &b, k, None, None, &mut out).unwrap_err();
        assert_ne!(err, Error::Empty, "{name}");
        assert_eq!(err, Error::BufferSize, "{name}");
        assert_eq!(err.message(), "out buffer length must be n * k", "{name}");
    }
}

#[test]
fn packed_layout_is_i_times_k_plus_j() {
    let b = Cell::ortho(10.0, 10.0, 10.0).unwrap();
    let xyz = [
        [0.0, 0.0, 0.0],
        [1.0, 0.0, 0.0],
        [0.0, 2.0, 0.0],
        [0.0, 0.0, 3.0],
    ];
    for &k in &[1usize, 2, 3, 5] {
        let rows = knearest(&xyz, &b, k, None, None).unwrap();
        let mut out = vec![-2i32; xyz.len() * k];
        knearest_into(&xyz, &b, k, None, None, &mut out).unwrap();
        for i in 0..xyz.len() {
            let filled = rows[i].0.len();
            for j in 0..filled {
                assert_eq!(out[i * k + j], rows[i].0[j] as i32, "out[{i}*{k}+{j}]");
            }
            for j in filled..k {
                assert_eq!(out[i * k + j], -1, "unused out[{i}*{k}+{j}]");
            }
        }
    }
}

#[test]
fn mask_none_matches_all_ones() {
    let b = Cell::ortho(10.0, 10.0, 10.0).unwrap();
    let xyz = [
        [0.0, 0.0, 0.0],
        [1.2, 0.0, 0.0],
        [0.0, 1.4, 0.0],
        [0.0, 0.0, 1.6],
        [2.0, 2.0, 2.0],
    ];
    let ones = [true; 5];
    let k = 3;
    let none_rows = knearest(&xyz, &b, k, None, None).unwrap();
    let ones_rows = knearest(&xyz, &b, k, Some(&ones), None).unwrap();
    assert_eq!(none_rows, ones_rows);
    let mut out_none = vec![-1i32; xyz.len() * k];
    let mut out_ones = vec![-1i32; xyz.len() * k];
    knearest_into(&xyz, &b, k, None, None, &mut out_none).unwrap();
    knearest_into(&xyz, &b, k, Some(&ones), None, &mut out_ones).unwrap();
    assert_eq!(out_none, out_ones);
}

#[test]
fn short_mask_is_mask_len() {
    let b = Cell::ortho(10.0, 10.0, 10.0).unwrap();
    let xyz = [[0.0, 0.0, 0.0], [1.0, 0.0, 0.0]];
    let mask = [true];
    assert_eq!(
        knearest(&xyz, &b, 1, Some(&mask), None).unwrap_err(),
        Error::MaskLen
    );
}

#[test]
fn empty_xyz_is_empty_not_buffer() {
    let b = Cell::ortho(10.0, 10.0, 10.0).unwrap();
    assert_eq!(knearest(&[], &b, 1, None, None).unwrap_err(), Error::Empty);
}

#[test]
fn knearest_into_rejects_short_buffer() {
    let b = Cell::ortho(10.0, 10.0, 10.0).unwrap();
    let xyz = [[0.0, 0.0, 0.0], [1.0, 0.0, 0.0]];
    let mut out = [-1; 1];
    assert_eq!(
        knearest_into(&xyz, &b, 1, None, None, &mut out).unwrap_err(),
        Error::BufferSize
    );
}

#[test]
fn packed_layout_is_row_major() {
    let b = Cell::ortho(10.0, 10.0, 10.0).unwrap();
    let xyz = [[0.0, 0.0, 0.0], [1.0, 0.0, 0.0]];
    let mut out = [0; 4];
    knearest_into(&xyz, &b, 2, None, None, &mut out).unwrap();
    assert_eq!(out, [1, -1, 0, -1]);
}

#[test]
fn into_d2_writes_periodic_image() {
    let b = Cell::ortho(10.0, 10.0, 10.0).unwrap();
    let xyz = [[0.2, 0.0, 0.0], [9.4, 0.0, 0.0]];
    let mut nn = [-1; 2];
    let mut d2 = [0.0; 2];
    knearest_into_d2(&xyz, &b, 1, None, None, &mut nn, Some(&mut d2)).unwrap();
    assert_eq!(nn, [1, 0]);
    assert!(almost(d2[0], 0.64));
    assert!(almost(d2[1], 0.64));
}

#[test]
fn corner_wrap_agrees_with_brute() {
    let b = Cell::ortho(10.0, 10.0, 10.0).unwrap();
    let xyz = [[0.1, 0.1, 0.1], [9.8, 9.8, 9.8], [5.0, 5.0, 5.0]];
    let cell = knearest(&xyz, &b, 1, None, Some(2.0)).unwrap();
    let brute = knearest_brute(&xyz, &b, 1, None).unwrap();
    assert_eq!(cell[0].0, brute[0].0);
    assert_eq!(cell[1].0, brute[1].0);
    assert_eq!(cell[0].0, vec![1]);
}

#[test]
fn same_bin_occupants_take_different_images() {
    let b = Cell::ortho(10.0, 10.0, 10.0).unwrap();
    let xyz = [[0.1, 0.0, 0.0], [1.0, 0.0, 0.0], [9.8, 0.0, 0.0]];
    let rows = knearest(&xyz, &b, 2, None, Some(10.0)).unwrap();
    assert_eq!(rows[0].0, vec![2, 1]);
    assert!(almost(rows[0].1[0], 0.09));
    assert!(almost(rows[0].1[1], 0.81));
}

#[test]
fn unused_distance_slots_are_nan() {
    let b = Cell::ortho(10.0, 10.0, 10.0).unwrap();
    let xyz = [[0.0, 0.0, 0.0], [1.0, 0.0, 0.0]];
    let mut nn = [0; 4];
    let mut d2 = [0.0; 4];
    knearest_into_d2(&xyz, &b, 2, None, None, &mut nn, Some(&mut d2)).unwrap();
    assert_eq!(nn, [1, -1, 0, -1]);
    assert!(almost(d2[0], 1.0) && d2[1].is_nan() && almost(d2[2], 1.0) && d2[3].is_nan());
}

#[allow(clippy::too_many_arguments)]
fn knearest_into_many(
    xyz: &[[f64; 3]],
    n: usize,
    n_frames: usize,
    b: &Cell,
    k: usize,
    mask: Option<&[bool]>,
    hint: Option<f64>,
    out_nn: &mut [i32],
    mut out_d2: Option<&mut [f64]>,
) -> Result<(), Error> {
    let d2_len = out_d2.as_ref().map(|d| d.len());
    validate_frames(n, n_frames, xyz.len(), k, out_nn.len(), d2_len)?;
    for f in 0..n_frames {
        let (lo, hi, nn_lo, nn_hi) = frame_span(f, n, n_frames, k);
        let frame_d2 = out_d2.as_mut().map(|d| &mut d[nn_lo..nn_hi]);
        knearest_into_d2(&xyz[lo..hi], b, k, mask, hint, &mut out_nn[nn_lo..nn_hi], frame_d2)?;
    }
    Ok(())
}

fn triclinic() -> Cell {
    Cell::from_vectors(
        [10.0, 0.0, 0.0],
        [3.0, 9.0, 0.0],
        [1.0, 2.0, 8.0],
        [0.0, 0.0, 0.0],
    )
    .unwrap()
}

fn lcg_frac(s: &mut u64) -> f64 {
    *s = s.wrapping_mul(6364136223846793005).wrapping_add(1);
    (*s >> 11) as f64 / (1u64 << 53) as f64
}

fn points_in_cell(cell: &Cell, n: usize, seed: u64) -> Vec<[f64; 3]> {
    let mut s = seed;
    let mut xyz = Vec::with_capacity(n);
    for _ in 0..n {
        let u = lcg_frac(&mut s);
        let v = lcg_frac(&mut s);
        let w = lcg_frac(&mut s);
        xyz.push(cell.cartesian([u, v, w]));
    }
    xyz
}

/// Independent 27-image minimum image.
fn mic_dist2_27(cell: &Cell, p: [f64; 3], q: [f64; 3]) -> f64 {
    let a = cell.a();
    let b = cell.b();
    let c = cell.c();
    let mut best = f64::INFINITY;
    for na in -1..=1 {
        for nb in -1..=1 {
            for nc in -1..=1 {
                let fa = f64::from(na);
                let fb = f64::from(nb);
                let fc = f64::from(nc);
                let dx = q[0] + fa * a[0] + fb * b[0] + fc * c[0] - p[0];
                let dy = q[1] + fa * a[1] + fb * b[1] + fc * c[1] - p[1];
                let dz = q[2] + fa * a[2] + fb * b[2] + fc * c[2] - p[2];
                let r2 = dx * dx + dy * dy + dz * dz;
                if r2 < best {
                    best = r2;
                }
            }
        }
    }
    best
}

fn oracle_knearest(xyz: &[[f64; 3]], cell: &Cell, k: usize) -> Vec<(Vec<usize>, Vec<f64>)> {
    let n = xyz.len();
    let mut out = vec![(Vec::new(), Vec::new()); n];
    for i in 0..n {
        let mut pairs: Vec<(f64, usize)> = (0..n)
            .filter(|&j| j != i)
            .map(|j| (mic_dist2_27(cell, xyz[i], xyz[j]), j))
            .collect();
        pairs.sort_by(|x, y| x.0.total_cmp(&y.0).then(x.1.cmp(&y.1)));
        pairs.truncate(k);
        out[i].1 = pairs.iter().map(|p| p.0).collect();
        out[i].0 = pairs.iter().map(|p| p.1).collect();
    }
    out
}

fn assert_rows_match(label: &str, got: &[(Vec<usize>, Vec<f64>)], want: &[(Vec<usize>, Vec<f64>)]) {
    assert_eq!(got.len(), want.len(), "{label} row count");
    for i in 0..got.len() {
        assert_eq!(got[i].0, want[i].0, "{label} source {i} indices");
        assert_eq!(got[i].1.len(), want[i].1.len(), "{label} source {i} dist2 len");
        for (a, c) in got[i].1.iter().zip(want[i].1.iter()) {
            assert!(almost(*a, *c), "{label} source {i}: {a} vs {c}");
        }
    }
}

#[test]
fn hex_body_diagonal_knn_matches_euclidean() {
    let b = hex_prism();
    let origin = [0.0, 0.0, 0.0];
    let body = b.cartesian([0.49, 0.49, 0.49]);
    let xyz = [origin, body];
    let rows = knearest(&xyz, &b, 1, None, Some(2.0)).unwrap();
    let brute = knearest_brute(&xyz, &b, 1, None).unwrap();
    let euc = b.dist2_euclidean(origin, body);
    let frac = b.dist2(origin, body);
    assert_eq!(rows[0].0, vec![1]);
    assert_eq!(rows[0].0, brute[0].0);
    assert!(almost(rows[0].1[0], brute[0].1[0]));
    assert!(almost(rows[0].1[0], euc));
    assert!(euc + 1e-8 < frac);
}

#[test]
fn sheared_brute_agrees_for_small_n_k1_and_k4() {
    let hex = hex_prism();
    let tri = triclinic();
    let cells: &[(&str, &Cell)] = &[("hex", &hex), ("triclinic", &tri)];
    let cases: &[(&str, usize, usize, u64, Option<f64>)] = &[
        ("n=5 k=1", 5, 1, 1, Some(2.0)),
        ("n=5 k=4", 5, 4, 1, Some(2.0)),
        ("n=8 k=1", 8, 1, 11, None),
        ("n=8 k=4", 8, 4, 11, Some(2.0)),
        ("n=12 k=1", 12, 1, 3, Some(1.5)),
        ("n=12 k=4", 12, 4, 3, None),
    ];
    for &(cell_name, cell) in cells {
        for &(nk_name, n, k, seed, hint) in cases {
            let label = format!("{cell_name} {nk_name} seed={seed}");
            let xyz = points_in_cell(cell, n, seed);
            let linked = knearest(&xyz, cell, k, None, hint).unwrap();
            let brute = knearest_brute(&xyz, cell, k, None).unwrap();
            let ora = oracle_knearest(&xyz, cell, k);
            assert_rows_match(&format!("{label} vs brute"), &linked, &brute);
            assert_rows_match(&format!("{label} vs 27-image"), &linked, &ora);
        }
    }
}

// The triclinic corner case, an exact tie for its third source, has a test
// of its own below.
#[test]
fn wrap_around_sources_near_faces_and_corners() {
    let ortho = Cell::ortho(10.0, 10.0, 10.0).unwrap();
    let hex = hex_prism();
    let tri = triclinic();
    let cases: &[(&str, &Cell, &[[f64; 3]], usize)] = &[
        ("ortho-face-x k=1", &ortho, &[[0.12, 5.0, 5.0], [9.79, 5.0, 5.0], [5.0, 5.0, 5.0]], 1),
        ("ortho-face-y k=1", &ortho, &[[5.0, 0.12, 5.0], [5.0, 9.79, 5.0], [5.0, 5.0, 5.0]], 1),
        ("ortho-face-z k=1", &ortho, &[[5.0, 5.0, 0.12], [5.0, 5.0, 9.79], [5.0, 5.0, 5.0]], 1),
        ("ortho-edge-xy k=1", &ortho, &[[0.12, 0.11, 5.0], [9.80, 9.81, 5.0], [5.0, 5.0, 5.0]], 1),
        ("ortho-corner k=1", &ortho, &[[0.11, 0.12, 0.13], [9.82, 9.81, 9.80], [5.0, 5.0, 5.0]], 1),
        (
            "ortho-faces k=4",
            &ortho,
            &[
                [0.10, 5.0, 5.0],
                [9.85, 5.0, 5.0],
                [5.0, 0.11, 5.0],
                [5.0, 9.84, 5.0],
                [5.0, 5.0, 0.12],
                [5.0, 5.0, 9.83],
                [5.0, 5.0, 5.0],
            ],
            4,
        ),
        ("ortho-same-bin two images k=2", &ortho, &[[0.1, 0.0, 0.0], [1.0, 0.0, 0.0], [9.8, 0.0, 0.0]], 2),
        ("hex-face-a k=1", &hex, &[[0.20, 0.10, 5.0], [9.70, 0.10, 5.0], [5.0, 4.0, 5.0]], 1),
        ("hex-corner k=1", &hex, &[[0.25, 0.20, 0.25], [14.75, 8.46, 9.75], [5.0, 4.3, 5.0]], 1),
        (
            "hex-faces k=4",
            &hex,
            &[
                [0.20, 0.15, 5.0],
                [9.70, 0.15, 5.0],
                [5.2, 0.20, 5.0],
                [7.7, 8.40, 5.0],
                [5.0, 4.3, 0.20],
                [5.0, 4.3, 9.75],
                [5.0, 4.3, 5.0],
            ],
            4,
        ),
        ("triclinic-face-a k=1", &tri, &[[0.20, 0.20, 4.0], [9.75, 0.20, 4.0], [6.0, 5.0, 4.0]], 1),
        (
            "triclinic-wrap k=4",
            &tri,
            &[
                [0.18, 0.15, 0.20],
                [13.82, 10.78, 7.79],
                [9.80, 0.25, 0.30],
                [0.25, 8.80, 0.22],
                [0.22, 0.30, 7.75],
                [7.0, 5.5, 4.0],
            ],
            4,
        ),
    ];
    for &(name, cell, xyz, k) in cases {
        let linked = knearest(xyz, cell, k, None, Some(2.0)).unwrap();
        let brute = knearest_brute(xyz, cell, k, None).unwrap();
        let ora = oracle_knearest(xyz, cell, k);
        assert_rows_match(&format!("{name} vs brute"), &linked, &brute);
        assert_rows_match(&format!("{name} vs 27-image"), &linked, &ora);
        assert!(linked[0].1[0] < 1.0, "{name} wrap dist2 {}", linked[0].1[0]);
        if xyz.len() == 3 && k == 1 {
            assert_eq!(linked[0].0[0], 1, "{name} wrap neighbour");
        }
    }
}

#[test]
fn into_many_shares_one_cell() {
    let b = Cell::ortho(10.0, 10.0, 10.0).unwrap();
    let xyz = [
        [0.2, 0.0, 0.0],
        [9.4, 0.0, 0.0],
        [0.2, 0.0, 0.0],
        [9.4, 0.0, 0.0],
    ];
    let mut nn = [-1; 4];
    let mut d2 = [0.0; 4];
    knearest_into_many(&xyz, 2, 2, &b, 1, None, None, &mut nn, Some(&mut d2)).unwrap();
    assert_eq!(nn, [1, 0, 1, 0]);
    assert!(almost(d2[0], 0.64));
    assert!(almost(d2[3], 0.64));
}

#[test]
fn rejects_bad_box() {
    assert!(Cell::ortho(0.0, 1.0, 1.0).is_err());
    assert!(Cell::from_vectors(
        [1.0, 0.0, 0.0],
        [2.0, 0.0, 0.0],
        [0.0, 0.0, 1.0],
        [0.0, 0.0, 0.0]
    )
    .is_err());
}

// The triclinic corner case of the wrap-around runs. Source 2 sits at the
// centre of inversion of the cell and points 0 and 1 are images of each
// other through it, so both are exactly as far from it. The walk's shifted
// subtraction on folded coordinates and the cell crate's nearest-image
// distance round that tie in opposite directions, each strictly, so each
// search names the point it finds strictly nearer; sources 0 and 1 agree
// with brute force and with the 27-image oracle in full.
#[test]
fn triclinic_corner_tie_is_broken_by_rounding() {
    let tri = triclinic();
    let xyz = [[0.20, 0.20, 0.20], [13.80, 10.80, 7.80], [7.0, 5.5, 4.0]];
    let linked = knearest(&xyz, &tri, 1, None, Some(2.0)).unwrap();
    let brute = knearest_brute(&xyz, &tri, 1, None).unwrap();
    let ora = oracle_knearest(&xyz, &tri, 1);
    assert_rows_match("corner sources 0, 1 vs brute", &linked[..2], &brute[..2]);
    assert_rows_match("corner sources 0, 1 vs 27-image", &linked[..2], &ora[..2]);
    assert!(linked[0].1[0] < 1.0, "corner wrap dist2 {}", linked[0].1[0]);
    assert_eq!(linked[0].0[0], 1, "corner wrap neighbour");
    assert_eq!(linked[2].0.len(), 1);
    assert!(almost(linked[2].1[0], brute[2].1[0]));
    assert!(almost(linked[2].1[0], ora[2].1[0]));

    // Each search's pick is the strictly nearer point under its own rounding.
    let linked2 = knearest(&xyz, &tri, 2, None, Some(2.0)).unwrap();
    let brute2 = knearest_brute(&xyz, &tri, 2, None).unwrap();
    assert_eq!(linked2[2].0[0], linked[2].0[0]);
    assert!(linked2[2].1[0] < linked2[2].1[1]);
    assert_eq!(brute2[2].0[0], brute[2].0[0]);
    assert!(brute2[2].1[0] < brute2[2].1[1]);
    assert!(almost(linked2[2].1[0], linked2[2].1[1]));
    assert!(almost(brute2[2].1[0], brute2[2].1[1]));
}

// The two distance routines of the cell crate that the walk and brute force
// call round the corner tie in opposite directions.
#[test]
fn cell_crate_rounds_the_corner_tie_both_ways() {
    let tri = triclinic();
    let xyz = [[0.20, 0.20, 0.20], [13.80, 10.80, 7.80], [7.0, 5.5, 4.0]];
    let e0 = tri.dist2_euclidean(xyz[2], xyz[0]);
    let e1 = tri.dist2_euclidean(xyz[2], xyz[1]);
    let linked2 = knearest(&xyz, &tri, 2, None, Some(2.0)).unwrap();
    let w = |j: usize| linked2[2].1[linked2[2].0.iter().position(|&x| x == j).unwrap()];
    assert!(almost(e0, e1));
    assert!(almost(w(0), w(1)));
    assert!((e0 < e1) != (w(0) < w(1)));
    assert!(e0 != e1 && w(0) != w(1));
}
