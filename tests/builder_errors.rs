use simplefs::{BuilderError, SimpleFsBuilder};

#[test]
fn too_many_files() {
    let mut builder = SimpleFsBuilder::new(usize::MAX);
    for _ in 0..65536 {
        builder.add_file(Vec::new());
    }
    assert_eq!(builder.finalize().err(), Some(BuilderError::TooManyFiles));
}

#[test]
fn most_files_that_fit_the_count() {
    let mut builder = SimpleFsBuilder::new(usize::MAX);
    for _ in 0..65535 {
        builder.add_file(Vec::new());
    }
    let image = builder.finalize().expect("image");
    assert_eq!(image.len(), 10 + 8 * 65535);
}

#[test]
fn capacity_exceeded() {
    let mut builder = SimpleFsBuilder::new(38);
    builder.add_file((1..=21).collect());
    assert_eq!(builder.finalize().err(), Some(BuilderError::OutOfSpace));
}

#[test]
fn capacity_exactly_met() {
    let mut builder = SimpleFsBuilder::new(39);
    builder.add_file((1..=21).collect());
    assert_eq!(builder.finalize().expect("image").len(), 39);
}

#[test]
fn directory_alone_over_capacity() {
    let mut builder = SimpleFsBuilder::new(17);
    builder.add_file(Vec::new());
    assert_eq!(builder.finalize().err(), Some(BuilderError::OutOfSpace));
}

#[test]
fn error_messages() {
    assert_eq!(BuilderError::OutOfSpace.message(), "capacity exceeded");
    assert_eq!(BuilderError::TooManyFiles.message(), "too many files");
    assert_eq!(BuilderError::FileTooBig.message(), "file too big");
}
