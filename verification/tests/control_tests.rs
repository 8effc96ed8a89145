use fwconsole::control::{reload_command, send_outcome, toggle_command};
use fwconsole::error::FwError;
use fwconsole::logtail::log_from_content;

#[test]
fn command_literals_match_the_device_protocol() {
    assert_eq!(toggle_command(), b"toggle".to_vec());
    assert_eq!(reload_command(), b"2".to_vec());
}

#[test]
fn failed_device_write_is_an_io_error_distinct_from_success() {
    let failed = send_outcome(false);
    assert_eq!(failed, Err(FwError::IoError));
    assert!(send_outcome(true).is_ok());
    assert_ne!(failed, Ok(()));
}

#[test]
fn io_error_is_distinct_from_the_other_error_kinds() {
    assert_ne!(FwError::IoError, FwError::SerializationError);
    assert_ne!(FwError::IoError, FwError::PartialDataError);
    assert_ne!(FwError::SerializationError, FwError::PartialDataError);
}

#[test]
fn log_read_failure_degrades_to_empty_buffer() {
    assert_eq!(log_from_content(None), Vec::<u8>::new());
    assert_eq!(log_from_content(Some(b"line one\nline two\n".to_vec())), b"line one\nline two\n".to_vec());
}
