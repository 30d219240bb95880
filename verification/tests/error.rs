use arenatree::gss;
use arenatree::{Error, NodeIdx};

#[test]
fn io_errors_clone_to_equal_errors() {
    let io = ioe::IoError::from(std::io::Error::new(std::io::ErrorKind::NotFound, "no such file"));
    let e = Error::Io(io.clone());
    let copy = e.clone();
    assert_eq!(copy, e);
    match copy {
        Error::Io(inner) => assert_eq!(inner.description(), "no such file"),
        other => panic!("expected an I/O error, got {other:?}"),
    }
}

#[test]
fn gss_errors_convert() {
    let e: Error = Error::from(gss::Error::ExpectedTop(NodeIdx(3)));
    assert_eq!(e, Error::ExpectedGssTop(NodeIdx(3)));
}
