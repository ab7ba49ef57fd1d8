use cpm_core::Fcb;

fn make_fcb() -> [u8; 36] {
    [0u8; 36]
}

#[test]
fn test_parse_filename() {
    let mem = make_fcb();
    let mut fcb = Fcb::new(&mem);

    fcb.parse_filename("TEST.TXT");
    assert_eq!(fcb.drive(), 0);
    assert_eq!(fcb.name(), "TEST");
    assert_eq!(fcb.extension(), "TXT");
    assert_eq!(fcb.filename(), "TEST.TXT");
}

#[test]
fn test_parse_filename_with_drive() {
    let mem = make_fcb();
    let mut fcb = Fcb::new(&mem);

    fcb.parse_filename("B:HELLO.COM");
    assert_eq!(fcb.drive(), 2); // B = 2
    assert_eq!(fcb.name(), "HELLO");
    assert_eq!(fcb.extension(), "COM");
}

#[test]
fn test_current_record() {
    let mem = make_fcb();
    let mut fcb = Fcb::new(&mem);

    fcb.set_current_record(0);
    assert_eq!(fcb.current_record(), 0);

    fcb.set_current_record(127);
    assert_eq!(fcb.current_record(), 127);
    assert_eq!(fcb.cr(), 127);
    assert_eq!(fcb.ex(), 0);

    fcb.set_current_record(128);
    assert_eq!(fcb.current_record(), 128);
    assert_eq!(fcb.cr(), 0);
    assert_eq!(fcb.ex(), 1);

    fcb.set_current_record(1000);
    assert_eq!(fcb.current_record(), 1000);
}

#[test]
fn test_record_roundtrip_extremes() {
    let mem = make_fcb();
    let mut fcb = Fcb::new(&mem);

    // largest record below 2^20 round-trips; CR and EX stay in range
    fcb.set_current_record(0xFFFFF);
    assert_eq!(fcb.current_record(), 0xFFFFF);
    assert!(fcb.cr() < 128);
    assert!(fcb.ex() < 32);

    fcb.set_current_record(0x12345);
    assert_eq!(fcb.current_record(), 0x12345);
}

#[test]
fn test_fd_storage() {
    let mem = make_fcb();
    let mut fcb = Fcb::new(&mem);

    assert_eq!(fcb.fd(), None);

    fcb.set_fd(42);
    assert_eq!(fcb.fd(), Some(42));

    fcb.set_fd(12345);
    assert_eq!(fcb.fd(), Some(12345));

    fcb.clear_fd();
    assert_eq!(fcb.fd(), None);
}

#[test]
fn test_fd_zero_is_invalid() {
    let mem = make_fcb();
    let mut fcb = Fcb::new(&mem);
    fcb.set_fd(0);
    assert_eq!(fcb.fd(), None);
}

#[test]
fn test_fd_signature_detects_corruption() {
    let mut mem = make_fcb();
    mem[0x10] = 7; // a handle word without its matching signature word
    let fcb = Fcb::new(&mem);
    assert_eq!(fcb.fd(), None);
}

#[test]
fn test_matches_pattern() {
    let mem = make_fcb();
    let mut fcb = Fcb::new(&mem);
    fcb.parse_filename("TEST.TXT");

    // Exact match
    assert!(fcb.matches_pattern(b"TEST    ", b"TXT"));

    // Wildcard match
    assert!(fcb.matches_pattern(b"T???????", b"???"));

    // No match
    assert!(!fcb.matches_pattern(b"OTHER   ", b"TXT"));
}

#[test]
fn test_random_record() {
    let mem = make_fcb();
    let mut fcb = Fcb::new(&mem);
    fcb.set_random_record(0x123456);
    assert_eq!(fcb.random_record(), 0x123456);
}
