use linkcell::links::LinkedCells;
use linkcell::mesh::Mesh;
use linkcell::select::{active_indices, brute_rows};
use linkcell::search::knearest_linked;
use linkcell::walk::walk;

const L: i64 = 100;

/// Points on a periodic line of length 100, binned ten to a bin; the key
/// of a pair under image `(na, nb, nc)` is its squared distance when the
/// transverse directions repeat every 100 as well.
fn ring(x: &[i64], mask: Option<&[bool]>, k: usize) -> Vec<(usize, Vec<(u64, usize)>)> {
    let mesh = Mesh::new(10, 1, 1).unwrap();
    let raw: Vec<(i32, i32, i32)> = x.iter().map(|&v| ((v / 10) as i32, 0, 0)).collect();
    let active = active_indices(x.len(), mask);
    let last = mesh.max_reach();
    let bounds: Vec<u64> = (0..=last).map(|r| (10 * r as u64) * (10 * r as u64)).collect();
    let key = |i: usize, j: usize, na: i32, nb: i32, nc: i32| -> u64 {
        let dx = x[j] + L * na as i64 - x[i];
        let dy = L * nb as i64;
        let dz = L * nc as i64;
        (dx * dx + dy * dy + dz * dz) as u64
    };
    knearest_linked(mesh, &raw, &active, k, &bounds, &key)
}

fn ring_brute(x: &[i64], mask: Option<&[bool]>, k: usize) -> Vec<(usize, Vec<(u64, usize)>)> {
    let key = |i: usize, j: usize| -> u64 {
        let d = (x[j] - x[i]).rem_euclid(L);
        let d = d.min(L - d);
        (d * d) as u64
    };
    brute_rows(x.len(), k, mask, &key).unwrap()
}

#[test]
fn periodic_image_wins_on_the_ring() {
    let x = [2i64, 94];
    let rows = ring(&x, None, 1);
    assert_eq!(rows, vec![(0, vec![(64, 1)]), (1, vec![(64, 0)])]);
}

#[test]
fn walk_agrees_with_brute_force_on_the_ring() {
    let mut x = Vec::new();
    let mut s: u64 = 3;
    for _ in 0..40 {
        s = s.wrapping_mul(6364136223846793005).wrapping_add(1);
        x.push(((s >> 33) % 100) as i64);
    }
    for k in [1usize, 3, 7] {
        let got = ring(&x, None, k);
        let want = ring_brute(&x, None, k);
        assert_eq!(got.len(), want.len());
        for (g, w) in got.iter().zip(want.iter()) {
            assert_eq!(g.0, w.0);
            let gk: Vec<u64> = g.1.iter().map(|p| p.0).collect();
            let wk: Vec<u64> = w.1.iter().map(|p| p.0).collect();
            assert_eq!(gk, wk, "source {}", g.0);
        }
    }
}

#[test]
fn rows_hold_min_k_and_active_count() {
    let x = [5i64, 15, 25, 35];
    let rows = ring(&x, None, 10);
    assert!(rows.iter().all(|r| r.1.len() == 3));
    let mask = [true, false, true, false];
    let rows = ring(&x, Some(&mask), 10);
    assert_eq!(rows, vec![(0, vec![(400, 2)]), (2, vec![(400, 0)])]);
}

#[test]
fn one_image_per_neighbour() {
    // one bin, both images of point 1 are visited; only the nearer stays
    let mesh = Mesh::new(1, 1, 1).unwrap();
    let x = [1i64, 90];
    let raw = vec![(0, 0, 0), (0, 0, 0)];
    let lc = LinkedCells::build(mesh, &raw, &vec![0, 1]);
    let bounds = vec![0u64, 10_000];
    let key = |i: usize, j: usize, na: i32, nb: i32, nc: i32| -> u64 {
        let dx = x[j] + L * na as i64 - x[i];
        let dy = L * nb as i64;
        let dz = L * nc as i64;
        (dx * dx + dy * dy + dz * dz) as u64
    };
    let row = walk(&lc, 0, 2, &bounds, &key);
    assert_eq!(row, vec![(121, 1)]);
}
