use linkcell::shell::shell_offsets;

fn cheb(o: (i32, i32, i32)) -> i32 {
    o.0.abs().max(o.1.abs()).max(o.2.abs())
}

#[test]
fn first_shell_is_the_whole_unit_cube() {
    let s = shell_offsets(1);
    assert_eq!(s.len(), 27);
    assert_eq!(s[0], (-1, -1, -1));
    assert_eq!(s[13], (0, 0, 0));
    assert_eq!(s[26], (1, 1, 1));
}

#[test]
fn later_shells_are_surfaces_in_order() {
    for reach in 2..=4 {
        let s = shell_offsets(reach);
        let side = 2 * reach + 1;
        let inner = 2 * reach - 1;
        assert_eq!(s.len() as i32, side * side * side - inner * inner * inner);
        assert!(s.iter().all(|&o| cheb(o) == reach));
        assert!(s.windows(2).all(|w| w[0] < w[1]));
    }
    assert_eq!(shell_offsets(2)[0], (-2, -2, -2));
    assert_eq!(shell_offsets(2)[1], (-2, -2, -1));
}

#[test]
fn shells_tile_the_cube() {
    let mut all: Vec<(i32, i32, i32)> = Vec::new();
    for reach in 1..=3 {
        all.extend(shell_offsets(reach));
    }
    all.sort();
    let before = all.len();
    all.dedup();
    assert_eq!(all.len(), before);
    assert_eq!(all.len(), 7 * 7 * 7);
}
