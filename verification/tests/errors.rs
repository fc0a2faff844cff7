use biomeat::client::{REQUESTS_PER_SECOND, USER_AGENT};
use biomeat::{Error, ErrorKind};

#[test]
fn malformed_data_and_transport_are_told_apart() {
    assert_eq!(Error::MissingChapterNumber.kind(), ErrorKind::DataShape);
    assert_eq!(Error::TooManyPages.kind(), ErrorKind::DataShape);
    assert_eq!(Error::TotalBelowOffset.kind(), ErrorKind::DataShape);
    assert_eq!(Error::LimitTooLarge.kind(), ErrorKind::DataShape);
    assert_eq!(Error::OffsetOverflow.kind(), ErrorKind::DataShape);
    assert_eq!(Error::MissingTitle.kind(), ErrorKind::DataShape);
    assert_eq!(Error::InvalidUrl.kind(), ErrorKind::Transport);
}

#[test]
fn errors_have_messages() {
    assert_eq!(Error::MissingChapterNumber.message(), "missing chapter number");
    assert_eq!(Error::TooManyPages.message(), "too many pages");
    assert_eq!(Error::TotalBelowOffset.message(), "total below starting offset");
    assert_eq!(Error::LimitTooLarge.message(), "limit too large");
    assert_eq!(Error::OffsetOverflow.message(), "offset too large");
    assert_eq!(Error::MissingTitle.message(), "missing manga title");
    assert_eq!(Error::InvalidUrl.message(), "invalid page URL");
}

#[test]
fn client_keeps_to_five_requests_per_second() {
    assert_eq!(REQUESTS_PER_SECOND, 5);
    assert_eq!(USER_AGENT, "biomeat/0.1.0");
}
