use linkcell::links::LinkedCells;
use linkcell::mesh::Mesh;

fn list(lc: &LinkedCells, c: usize) -> Vec<usize> {
    let mut out = Vec::new();
    let mut j = lc.head[c];
    while j >= 0 {
        out.push(j as usize);
        j = lc.next[j as usize];
    }
    out
}

#[test]
fn lists_hold_active_points_largest_first() {
    let mesh = Mesh::new(2, 1, 1).unwrap();
    let raw = vec![(0, 0, 0), (1, 0, 0), (0, 0, 0), (5, 0, 0), (-2, 0, 0)];
    let lc = LinkedCells::build(mesh, &raw, &vec![0, 1, 2, 3, 4]);
    assert_eq!(lc.bins[3], (1, 0, 0));
    assert_eq!(lc.bins[4], (0, 0, 0));
    assert_eq!(list(&lc, 0), vec![4, 2, 0]);
    assert_eq!(list(&lc, 1), vec![3, 1]);
}

#[test]
fn inactive_points_are_not_listed() {
    let mesh = Mesh::new(2, 2, 1).unwrap();
    let raw = vec![(0, 0, 0), (1, 1, 0), (0, 0, 0), (1, 1, 0)];
    let lc = LinkedCells::build(mesh, &raw, &vec![1, 2]);
    assert_eq!(list(&lc, 0), vec![2]);
    assert_eq!(list(&lc, 3), vec![1]);
    assert!(list(&lc, 1).is_empty());
    assert!(list(&lc, 2).is_empty());
    assert_eq!(lc.next[0], -1);
    assert_eq!(lc.next[3], -1);
}
