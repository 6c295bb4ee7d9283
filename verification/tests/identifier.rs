use sshprobe::error::ProbeError;
use sshprobe::read_identifier;
use sshprobe::stream::ByteStream;

fn stream_of(data: &[u8]) -> ByteStream {
    ByteStream::new(data.to_vec())
}

#[test]
fn test_read_identifier_basic() {
    let mut stream = stream_of("SSH-2.0-foobar\r\n".as_bytes());
    assert_eq!(read_identifier(&mut stream).unwrap(), "SSH-2.0-foobar");
}

#[test]
fn test_read_identifier_skip_extra_lines() {
    let mut stream = stream_of("foo\r\nbar\r\nSSH-2.0-foobar\r\n".as_bytes());
    assert_eq!(read_identifier(&mut stream).unwrap(), "SSH-2.0-foobar");
}

#[test]
#[should_panic]
fn test_read_identifier_missing() {
    let mut stream = stream_of("SHS-2.0-foobar\r\n".as_bytes());
    read_identifier(&mut stream).unwrap();
}

#[test]
#[should_panic]
fn test_read_identifier_too_many_extra_lines() {
    let mut stream = stream_of("1\r\n2\r\n3\r\n4\r\n5\r\nSSH-2.0-foobar\r\n".as_bytes());
    read_identifier(&mut stream).unwrap();
}

#[test]
#[should_panic]
fn test_read_identifier_unexpected_end() {
    let mut stream = stream_of("1\r\n2\r\n3\r\n".as_bytes());
    read_identifier(&mut stream).unwrap();
}

#[test]
fn test_read_identifier_too_many_lines_error_value() {
    let mut stream = stream_of("1\r\n2\r\n3\r\n4\r\n5\r\nSSH-2.0-foobar\r\n".as_bytes());
    assert_eq!(read_identifier(&mut stream), Err(ProbeError::TooManyLines));
}

#[test]
fn test_read_identifier_last_allowed_line() {
    // Four skipped lines still leave the fifth line within the allowance.
    let mut stream = stream_of("1\r\n2\r\n3\r\n4\r\nSSH-2.0-foobar\r\n".as_bytes());
    assert_eq!(read_identifier(&mut stream).unwrap(), "SSH-2.0-foobar");
}

#[test]
fn test_read_identifier_line_error_propagates() {
    // A malformed line fails the whole read, not just one skip.
    let mut stream = stream_of("foo\nSSH-2.0-foobar\r\n".as_bytes());
    assert_eq!(read_identifier(&mut stream), Err(ProbeError::InvalidLineEnding));
}
