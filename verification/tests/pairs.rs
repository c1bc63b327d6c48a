use linkcell::links::LinkedCells;
use linkcell::mesh::Mesh;
use linkcell::pairs::{image_count, keep_half, pair_reach, pairs_walk, PairHit};
use linkcell::select::active_indices;
use linkcell::Error;
use minimage::Cell;

#[test]
fn half_side_is_canonical() {
    assert!(keep_half(0, 1, [0, 0, 0]));
    assert!(!keep_half(1, 0, [0, 0, 0]));
    assert!(keep_half(2, 2, [0, 0, 0]));
    assert!(keep_half(2, 2, [0, -1, 5]));
    assert!(!keep_half(2, 2, [0, 1, -5]));
    assert!(keep_half(2, 2, [-3, 9, 9]));
    assert!(!keep_half(2, 2, [0, 0, 4]));
}

#[test]
fn image_count_caps_at_two_to_the_24() {
    assert_eq!(image_count([1, 1, 1]), Ok(27));
    assert_eq!(image_count([0, 0, 0]), Ok(1));
    assert_eq!(image_count([127, 127, 127]), Ok(255 * 255 * 255));
    assert_eq!(image_count([128, 127, 128]), Err(Error::TooManyImages));
    assert_eq!(image_count([i32::MAX, 0, 0]), Err(Error::TooManyImages));
}

fn pairs_ortho(xyz: &[[f64; 3]], cutoff: f64, half: bool) -> Vec<PairHit> {
    let b = Cell::ortho(10.0, 10.0, 10.0).unwrap();
    let n = xyz.len();
    let active = active_indices(n, None);
    let w = b.widths();
    let repeats = [
        (cutoff / w[0]).ceil() as i32,
        (cutoff / w[1]).ceil() as i32,
        (cutoff / w[2]).ceil() as i32,
    ];
    image_count(repeats).unwrap();
    let edge = cutoff.min(w[0]).min(w[1]).min(w[2]);
    let nx = (w[0] / edge).floor().max(1.0) as i32;
    let ny = (w[1] / edge).floor().max(1.0) as i32;
    let nz = (w[2] / edge).floor().max(1.0) as i32;
    let mesh = Mesh::new(nx, ny, nz).unwrap();
    let cell_min = (w[0] / f64::from(nx)).min(w[1] / f64::from(ny)).min(w[2] / f64::from(nz));
    let mut folded = vec![[0.0; 3]; n];
    let mut raw = vec![(0, 0, 0); n];
    for &i in &active {
        let s = b.fractional(xyz[i]);
        folded[i] = b.cartesian(s);
        raw[i] = (
            (s[0] * f64::from(nx)) as i32,
            (s[1] * f64::from(ny)) as i32,
            (s[2] * f64::from(nz)) as i32,
        );
    }
    let lc = LinkedCells::build(mesh, &raw, &active);
    let reach_cut = (cutoff / cell_min).ceil() as i32;
    let last = pair_reach(reach_cut, repeats, &mesh);
    let cut2 = cutoff * cutoff;
    let covered: Vec<bool> = (0..=last)
        .map(|r| {
            let bound = f64::from(r) * cell_min;
            bound * bound >= cut2
        })
        .collect();
    let key = |i: usize, j: usize, na: i32, nb: i32, nc: i32| -> u64 {
        b.dist2_shifted(folded[i], folded[j], b.lattice_shift(na, nb, nc)).to_bits()
    };
    pairs_walk(&lc, &active, last, &covered, cut2.to_bits(), half, &key)
}

#[test]
fn wrap_pair_keeps_shift() {
    let xyz = [[0.2, 0.0, 0.0], [9.4, 0.0, 0.0]];
    let pairs = pairs_ortho(&xyz, 1.0, false);
    assert_eq!(pairs.len(), 2);
    let a = pairs.iter().find(|p| p.0 == 0 && p.1 == 1).unwrap();
    assert_eq!(a.2, (-1, 0, 0));
    assert!((f64::from_bits(a.3) - 0.64).abs() < 1e-12);
}

#[test]
fn half_list_is_canonical() {
    let xyz = [[0.2, 0.0, 0.0], [9.4, 0.0, 0.0]];
    let pairs = pairs_ortho(&xyz, 1.0, true);
    assert_eq!(pairs.len(), 1);
    assert_eq!(pairs[0].0, 0);
    assert_eq!(pairs[0].1, 1);
}

#[test]
fn periodic_self_images_stay() {
    let xyz = [[5.0, 5.0, 5.0]];
    let pairs = pairs_ortho(&xyz, 10.5, false);
    assert_eq!(pairs.len(), 6);
    assert!(pairs.iter().all(|p| p.0 == 0 && p.1 == 0 && p.2 != (0, 0, 0)));
    let half = pairs_ortho(&xyz, 10.5, true);
    assert_eq!(half.len(), 3);
}

#[test]
fn full_list_names_each_pair_once_with_its_mirror() {
    let xyz = [
        [0.2, 0.3, 0.1],
        [9.4, 0.1, 9.9],
        [0.5, 9.6, 0.4],
        [5.0, 5.0, 5.0],
        [5.6, 4.7, 5.2],
    ];
    let full = pairs_ortho(&xyz, 1.5, false);
    assert!(!full.is_empty());
    for (a, p) in full.iter().enumerate() {
        for q in &full[a + 1..] {
            assert!(!(p.0 == q.0 && p.1 == q.1 && p.2 == q.2), "repeat {p:?}");
        }
        let m = (p.1, p.0, (-p.2 .0, -p.2 .1, -p.2 .2));
        assert!(full.iter().any(|q| (q.0, q.1, q.2) == m), "no mirror of {p:?}");
        assert!(f64::from_bits(p.3) < 1.5 * 1.5);
    }
    let half = pairs_ortho(&xyz, 1.5, true);
    let filtered: Vec<PairHit> = full
        .iter()
        .copied()
        .filter(|p| keep_half(p.0, p.1, [p.2 .0, p.2 .1, p.2 .2]))
        .collect();
    assert_eq!(half, filtered);
    assert_eq!(2 * half.len(), full.len());
}

#[test]
fn every_pair_within_the_cutoff_is_listed() {
    let xyz = [[0.2, 0.3, 0.1], [9.4, 0.1, 9.9], [5.0, 5.0, 5.0], [5.6, 4.7, 5.2]];
    let b = Cell::ortho(10.0, 10.0, 10.0).unwrap();
    let full = pairs_ortho(&xyz, 1.5, false);
    let mut want = 0;
    for i in 0..xyz.len() {
        for j in 0..xyz.len() {
            for na in -1..=1 {
                for nb in -1..=1 {
                    for nc in -1..=1 {
                        if i == j && (na, nb, nc) == (0, 0, 0) {
                            continue;
                        }
                        let pi = b.cartesian(b.fractional(xyz[i]));
                        let pj = b.cartesian(b.fractional(xyz[j]));
                        let d2 = b.dist2_shifted(pi, pj, b.lattice_shift(na, nb, nc));
                        if d2 < 1.5 * 1.5 {
                            want += 1;
                            assert!(
                                full.iter().any(|p| p.0 == i && p.1 == j && p.2 == (na, nb, nc)),
                                "missing ({i}, {j}, {na} {nb} {nc})"
                            );
                        }
                    }
                }
            }
        }
    }
    assert_eq!(full.len(), want);
}
