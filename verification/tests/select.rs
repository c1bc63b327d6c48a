use linkcell::select::{active_indices, brute_rows, validate_search};
use linkcell::Error;

#[test]
fn search_errors_come_in_order() {
    let short = [true];
    assert_eq!(validate_search(0, 0, Some(&short)), Err(Error::ZeroK));
    assert_eq!(validate_search(0, 1, Some(&short)), Err(Error::Empty));
    assert_eq!(validate_search(2, 1, Some(&short)), Err(Error::MaskLen));
    assert_eq!(validate_search(1, 1, Some(&short)), Ok(()));
    assert_eq!(validate_search(5, 3, None), Ok(()));
}

#[test]
fn active_points_follow_the_mask() {
    assert_eq!(active_indices(4, None), vec![0, 1, 2, 3]);
    let mask = [true, false, true, false];
    assert_eq!(active_indices(4, Some(&mask)), vec![0, 2]);
    let ones = [true; 5];
    assert_eq!(active_indices(5, Some(&ones)), active_indices(5, None));
    let short = [false, true];
    assert_eq!(active_indices(4, Some(&short)), vec![1]);
}

fn ring_key(x: &[i64], len: i64) -> impl Fn(usize, usize) -> u64 + '_ {
    move |i, j| {
        let d = (x[j] - x[i]).rem_euclid(len);
        let d = d.min(len - d);
        (d * d) as u64
    }
}

#[test]
fn brute_rows_are_sorted_and_cut_to_k() {
    let x = [0i64, 10, 3, 97, 50];
    let key = ring_key(&x, 100);
    let rows = brute_rows(5, 2, None, &key).unwrap();
    assert_eq!(rows.len(), 5);
    assert_eq!(rows[0], (0, vec![(9, 2), (9, 3)]));
    assert_eq!(rows[4].0, 4);
    assert_eq!(rows[4].1, vec![(1600, 1), (2209, 2)]);
}

#[test]
fn brute_errors_follow_the_search() {
    let x = [0i64, 1, 2];
    let key = ring_key(&x, 100);
    assert_eq!(brute_rows(3, 0, None, &key).unwrap_err(), Error::ZeroK);
    assert_eq!(brute_rows(0, 1, None, &key).unwrap_err(), Error::Empty);
    let short = [true, true];
    assert_eq!(brute_rows(3, 5, Some(&short), &key).unwrap_err(), Error::MaskLen);
    let long = [true, true, false, true];
    assert_eq!(brute_rows(3, 5, Some(&long), &key).unwrap_err(), Error::MaskLen);
    let mask = [true, true, false];
    let rows = brute_rows(3, 5, Some(&mask), &key).unwrap();
    assert_eq!(rows, vec![(0, vec![(1, 1)]), (1, vec![(1, 0)])]);
}
