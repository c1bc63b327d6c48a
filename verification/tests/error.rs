use linkcell::Error;

#[test]
fn messages_name_the_failure() {
    assert_eq!(Error::ZeroK.message(), "k must be at least 1");
    assert_eq!(Error::BadBox.message(), "singular or non-positive cell");
    assert_eq!(Error::Empty.message(), "no points");
    assert_eq!(Error::BufferSize.message(), "out buffer length must be n * k");
    assert_eq!(Error::Overflow.message(), "n * k overflows");
    assert_eq!(Error::MaskLen.message(), "mask length must be n");
    assert_eq!(Error::TooManyCells.message(), "linked-cell mesh is too fine");
    assert_eq!(Error::BadCutoff.message(), "cutoff must be finite and positive");
    assert_eq!(Error::TooManyImages.message(), "too many periodic images");
}
