use sshprobe::error::ProbeError;
use sshprobe::read_kex_payload;
use sshprobe::read_name_list;
use sshprobe::stream::ByteStream;

fn stream_of(data: &[u8]) -> ByteStream {
    ByteStream::new(data.to_vec())
}

fn name_list_bytes(text: &str) -> Vec<u8> {
    let mut out = (text.len() as u32).to_be_bytes().to_vec();
    out.extend_from_slice(text.as_bytes());
    out
}

fn kexinit_packet(lists: &[&str]) -> Vec<u8> {
    let mut body: Vec<u8> = vec![20];
    body.extend_from_slice(&[0xab; 16]);
    for l in lists {
        body.extend_from_slice(&name_list_bytes(l));
    }
    let mut packet = ((body.len() + 1) as u32).to_be_bytes().to_vec();
    packet.extend_from_slice(&body);
    packet
}

const EIGHT_LISTS: [&str; 8] = [
    "curve25519-sha256,diffie-hellman-group14-sha256",
    "ssh-ed25519,rsa-sha2-512",
    "aes128-ctr,chacha20-poly1305@openssh.com",
    "aes256-ctr",
    "hmac-sha2-256",
    "hmac-sha2-512,hmac-sha1",
    "none,zlib@openssh.com",
    "zlib",
];

#[test]
fn test_name_list_basic() {
    // From RFC 4251, Section 5 > name-list.
    let mut stream = stream_of(&[
        0, 0, 0, 0x09, 0x7a, 0x6c, 0x69, 0x62, 0x2c, 0x6e, 0x6f, 0x6e, 0x65,
    ]);
    assert_eq!(read_name_list(&mut stream).unwrap(), ["zlib", "none"]);
}

#[test]
fn test_name_list_empty_is_one_empty_name() {
    // A zero-length wire string still decodes to a single empty token.
    let mut stream = stream_of(&[0, 0, 0, 0]);
    assert_eq!(read_name_list(&mut stream).unwrap(), [""]);
}

#[test]
fn test_name_list_invalid_utf8() {
    let mut stream = stream_of(&[0, 0, 0, 2, 0xff, 0xfe]);
    assert_eq!(read_name_list(&mut stream), Err(ProbeError::InvalidEncoding));
}

#[test]
fn test_name_list_short_body() {
    let mut stream = stream_of(&[0, 0, 0, 9, 0x7a, 0x6c]);
    assert_eq!(
        read_name_list(&mut stream),
        Err(ProbeError::UnexpectedEndOfStream)
    );
}

#[test]
fn test_read_kex_payload_well_formed() {
    let mut stream = stream_of(&kexinit_packet(&EIGHT_LISTS));
    let kex = read_kex_payload(&mut stream).unwrap();
    assert_eq!(
        kex.key_exchange,
        ["curve25519-sha256", "diffie-hellman-group14-sha256"]
    );
    assert_eq!(kex.host_keys, ["ssh-ed25519", "rsa-sha2-512"]);
    assert_eq!(kex.encryption_cts, ["aes128-ctr", "chacha20-poly1305@openssh.com"]);
    assert_eq!(kex.encryption_stc, ["aes256-ctr"]);
    assert_eq!(kex.mac_cts, ["hmac-sha2-256"]);
    assert_eq!(kex.mac_stc, ["hmac-sha2-512", "hmac-sha1"]);
    assert_eq!(kex.compression_cts, ["none", "zlib@openssh.com"]);
    assert_eq!(kex.compression_stc, ["zlib"]);
}

#[test]
fn test_read_kex_payload_unexpected_message() {
    let mut packet = kexinit_packet(&EIGHT_LISTS);
    packet[4] = 21;
    let mut stream = stream_of(&packet);
    assert!(matches!(
        read_kex_payload(&mut stream),
        Err(ProbeError::UnexpectedMessage)
    ));
}

#[test]
fn test_read_kex_payload_packet_too_large() {
    let mut packet = kexinit_packet(&EIGHT_LISTS);
    let oversize = (35001u32).to_be_bytes();
    packet[..4].copy_from_slice(&oversize);
    let total = packet.len();
    let mut stream = stream_of(&packet);
    assert!(matches!(
        read_kex_payload(&mut stream),
        Err(ProbeError::PacketTooLarge)
    ));
    // The oversized length is rejected before any further byte is consumed.
    assert_eq!(stream.remaining(), total - 4);
}

#[test]
fn test_read_kex_payload_at_ceiling_is_accepted() {
    let mut packet = kexinit_packet(&EIGHT_LISTS);
    let ceiling = (35000u32).to_be_bytes();
    packet[..4].copy_from_slice(&ceiling);
    let mut stream = stream_of(&packet);
    assert!(read_kex_payload(&mut stream).is_ok());
}

#[test]
fn test_read_kex_payload_truncated() {
    let packet = kexinit_packet(&EIGHT_LISTS);
    let mut stream = stream_of(&packet[..packet.len() - 3]);
    assert!(matches!(
        read_kex_payload(&mut stream),
        Err(ProbeError::UnexpectedEndOfStream)
    ));
}

#[test]
fn test_read_kex_payload_twice_is_identical() {
    // Two independent streams over the same buffer decode field for field
    // identically.
    let packet = kexinit_packet(&EIGHT_LISTS);
    let mut first = stream_of(&packet);
    let mut second = stream_of(&packet);
    let a = read_kex_payload(&mut first).unwrap();
    let b = read_kex_payload(&mut second).unwrap();
    assert_eq!(a.key_exchange, b.key_exchange);
    assert_eq!(a.host_keys, b.host_keys);
    assert_eq!(a.encryption_cts, b.encryption_cts);
    assert_eq!(a.encryption_stc, b.encryption_stc);
    assert_eq!(a.mac_cts, b.mac_cts);
    assert_eq!(a.mac_stc, b.mac_stc);
    assert_eq!(a.compression_cts, b.compression_cts);
    assert_eq!(a.compression_stc, b.compression_stc);
    assert_eq!(first.remaining(), second.remaining());
}
