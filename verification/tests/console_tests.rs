use cpm_core::HeadlessConsole;
use cpm_core::CpmConsole;

#[test]
fn test_headless_console_output() {
    let mut console = HeadlessConsole::new();
    console.write(b'H');
    console.write(b'i');
    assert_eq!(console.output_string(), "Hi");
}

#[test]
fn test_headless_console_input() {
    let mut console = HeadlessConsole::with_input(b"ABC");
    assert!(console.has_key());
    assert_eq!(console.get_key(), Some(b'A'));
    assert_eq!(console.get_key(), Some(b'B'));
    assert_eq!(console.get_key(), Some(b'C'));
    assert!(!console.has_key());
    assert_eq!(console.get_key(), None);
}

#[test]
fn test_wait_for_key_exhausted() {
    let mut console = HeadlessConsole::new();
    assert_eq!(console.wait_for_key(), 0);
    console.queue_string("Z");
    assert_eq!(console.wait_for_key(), b'Z');
}
