use clapscan::ports::{is_strictly_ascending, parse_ports};

#[test]
fn expand_single_ports() {
    let v = parse_ports("22,80,443").unwrap();
    assert_eq!(v, vec![22, 80, 443]);
}

#[test]
fn expand_overlapping_ranges() {
    let v = parse_ports("1-3,2-4").unwrap();
    assert_eq!(v, vec![1, 2, 3, 4]);
}

#[test]
fn expand_reversed_range() {
    let v = parse_ports("443-80").unwrap();
    assert_eq!(v.len(), 443 - 80 + 1);
    assert_eq!(v[0], 80);
    assert_eq!(*v.last().unwrap(), 443);
    for (i, p) in (80u16..=443).enumerate() {
        assert_eq!(v[i], p);
    }
}

#[test]
fn expand_rejects_garbage() {
    let e = parse_ports("abc").unwrap_err();
    assert_eq!(e.token, b"abc".to_vec());
}

#[test]
fn expand_rejects_empty() {
    let e = parse_ports("").unwrap_err();
    assert_eq!(e.token, b"".to_vec());
}

#[test]
fn expand_rejects_blank() {
    assert!(parse_ports("   ").is_err());
}

#[test]
fn expand_tolerates_whitespace() {
    let v = parse_ports(" 22 , 80 - 82 ").unwrap();
    assert_eq!(v, vec![22, 80, 81, 82]);
}

#[test]
fn expand_rejects_port_zero() {
    assert!(parse_ports("0").is_err());
    assert!(parse_ports("0-80").is_err());
}

#[test]
fn expand_rejects_out_of_range() {
    assert!(parse_ports("65536").is_err());
    assert!(parse_ports("1-70000").is_err());
    assert!(parse_ports("99999999999999999999").is_err());
}

#[test]
fn expand_accepts_bounds() {
    assert_eq!(parse_ports("1").unwrap(), vec![1]);
    assert_eq!(parse_ports("65535").unwrap(), vec![65535]);
}

#[test]
fn expand_collapses_duplicates() {
    assert_eq!(parse_ports("80,80,80").unwrap(), vec![80]);
}

#[test]
fn expand_rejects_double_dash() {
    let e = parse_ports("1-2-3").unwrap_err();
    assert_eq!(e.token, b"1-2-3".to_vec());
}

#[test]
fn expand_rejects_open_ended_ranges() {
    assert!(parse_ports("80-").is_err());
    assert!(parse_ports("-80").is_err());
    assert!(parse_ports("-").is_err());
}

#[test]
fn expand_names_first_bad_token() {
    let e = parse_ports("80, 44x3 ,22").unwrap_err();
    assert_eq!(e.token, b"44x3".to_vec());
}

#[test]
fn expand_is_atomic() {
    assert!(parse_ports("80,443,oops").is_err());
}

#[test]
fn expand_output_strictly_ascending() {
    let v = parse_ports("1000-1,500-1500,22").unwrap();
    assert!(is_strictly_ascending(&v));
    assert_eq!(v.len(), 1500);
}

#[test]
fn ascending_check_rejects_duplicates() {
    assert!(!is_strictly_ascending(&vec![1, 2, 2]));
    assert!(!is_strictly_ascending(&vec![3, 2]));
    assert!(is_strictly_ascending(&vec![]));
    assert!(is_strictly_ascending(&vec![7]));
}
