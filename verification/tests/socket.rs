use sshprobe::socket::{addr_has_port, SSH_DEFAULT_PORT};

#[test]
fn test_addr_has_port_with_port() {
    assert!(addr_has_port(&String::from("127.0.0.1:8080")));
}

#[test]
fn test_addr_has_port_without_port() {
    assert!(!addr_has_port(&String::from("127.0.0.1")));
}

#[test]
fn test_default_port_is_ssh() {
    assert_eq!(SSH_DEFAULT_PORT, 22);
}
