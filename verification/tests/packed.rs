use linkcell::packed::{frame_span, pack_indices, pack_keys, validate_frames, validate_packed};
use linkcell::Error;

#[test]
fn packed_buffer_length_must_be_n_times_k() {
    assert_eq!(validate_packed(2, 1, 1, None), Err(Error::BufferSize));
    assert_eq!(validate_packed(2, 2, 2, None), Err(Error::BufferSize));
    assert_eq!(validate_packed(2, 1, 8, None), Err(Error::BufferSize));
    assert_eq!(validate_packed(0, 1, 1, None), Err(Error::BufferSize));
    assert_eq!(validate_packed(usize::MAX, 2, 0, None), Err(Error::Overflow));
    assert_eq!(validate_packed(2, usize::MAX, 2, Some(1)), Err(Error::Overflow));
    assert_eq!(validate_packed(2, 2, 4, Some(3)), Err(Error::BufferSize));
    assert_eq!(validate_packed(2, 2, 4, Some(4)), Ok(()));
    assert_eq!(validate_packed(0, 1, 0, None), Ok(()));
}

#[test]
fn frame_checks_come_in_order() {
    assert_eq!(validate_frames(2, 0, 4, 1, 4, None), Err(Error::Empty));
    assert_eq!(validate_frames(usize::MAX, 2, 4, 1, 4, None), Err(Error::Overflow));
    assert_eq!(validate_frames(2, 2, 3, 1, 4, None), Err(Error::BufferSize));
    assert_eq!(validate_frames(usize::MAX / 2, 2, usize::MAX - 1, 3, 0, None), Err(Error::Overflow));
    assert_eq!(validate_frames(2, 2, 4, 1, 5, None), Err(Error::BufferSize));
    assert_eq!(validate_frames(2, 2, 4, 1, 4, Some(3)), Err(Error::BufferSize));
    assert_eq!(validate_frames(2, 2, 4, 1, 4, Some(4)), Ok(()));
}

#[test]
fn frames_are_consecutive_blocks() {
    assert_eq!(frame_span(0, 3, 2, 4), (0, 3, 0, 12));
    assert_eq!(frame_span(1, 3, 2, 4), (3, 6, 12, 24));
}

#[test]
fn packed_layout_fills_rows_then_minus_one() {
    let rows = vec![(0usize, vec![(5u64, 1usize)]), (1, vec![(5, 0)])];
    let mut out = [7i32; 4];
    pack_indices(&rows, 2, 2, &mut out);
    assert_eq!(out, [1, -1, 0, -1]);
}

#[test]
fn unlisted_sources_get_fill_only() {
    let rows = vec![(2usize, vec![(9u64, 0usize), (11, 1)])];
    let mut out = [0i32; 6];
    pack_indices(&rows, 3, 2, &mut out);
    assert_eq!(out, [-1, -1, -1, -1, 0, 1]);
    let mut keys = [0u64; 6];
    pack_keys(&rows, 3, 2, 77, &mut keys);
    assert_eq!(keys, [77, 77, 77, 77, 9, 11]);
}
