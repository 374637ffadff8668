use clapscan::banner::sanitize_banner;

#[test]
fn control_byte_becomes_dot() {
    let r = sanitize_banner(&vec![0x41, 0x00, 0x42]);
    assert_eq!(r, Some(String::from("A.B")));
}

#[test]
fn printable_text_kept() {
    let r = sanitize_banner(&b"SSH-2.0-OpenSSH".to_vec());
    assert_eq!(r, Some(String::from("SSH-2.0-OpenSSH")));
}

#[test]
fn all_control_bytes_is_no_banner() {
    assert_eq!(sanitize_banner(&vec![0x00, 0x01, 0x1f]), None);
}

#[test]
fn all_non_ascii_is_no_banner() {
    assert_eq!(sanitize_banner(&vec![0xc3, 0xa9, 0x80]), None);
}

#[test]
fn non_ascii_bytes_each_replaced() {
    let r = sanitize_banner(&vec![0xc3, 0xa9, 0x21]);
    assert_eq!(r, Some(String::from("..!")));
}

#[test]
fn one_printable_byte_keeps_the_banner() {
    let r = sanitize_banner(&vec![0x00, 0x41, 0x00]);
    assert_eq!(r, Some(String::from(".A.")));
}

#[test]
fn surrounding_whitespace_trimmed() {
    let r = sanitize_banner(&b"  hello  ".to_vec());
    assert_eq!(r, Some(String::from("hello")));
}

#[test]
fn trailing_newline_becomes_dot() {
    let r = sanitize_banner(&b"220 ready\r\n".to_vec());
    assert_eq!(r, Some(String::from("220 ready..")));
}

#[test]
fn empty_input_is_no_banner() {
    assert_eq!(sanitize_banner(&vec![]), None);
}

#[test]
fn all_whitespace_is_no_banner() {
    assert_eq!(sanitize_banner(&b"    ".to_vec()), None);
}
