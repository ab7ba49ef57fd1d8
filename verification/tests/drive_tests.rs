use cpm_core::{to_8_3, DriveFS, MemoryDriveFS, OverlayDriveFS};

#[test]
fn test_to_8_3_basic() {
    assert_eq!(to_8_3("hello.txt"), "HELLO.TXT");
    assert_eq!(to_8_3("HELLO.TXT"), "HELLO.TXT");
}

#[test]
fn test_to_8_3_truncation() {
    assert_eq!(to_8_3("verylongname.extension"), "VERYLONG.EXT");
}

#[test]
fn test_to_8_3_no_extension() {
    assert_eq!(to_8_3("noext"), "NOEXT");
}

#[test]
fn test_to_8_3_special_chars() {
    assert_eq!(to_8_3("test$file.com"), "TEST$FIL.COM");
    assert_eq!(to_8_3("hello world.txt"), "HELLOWOR.TXT"); // space removed, truncated to 8
}

#[test]
fn test_to_8_3_empty_name() {
    assert_eq!(to_8_3(".txt"), "_.TXT");
}

#[test]
fn test_to_8_3_idempotent() {
    for name in ["hello.txt", "verylongname.extension", ".txt", "a b c.d e", "x"] {
        let once = to_8_3(name);
        assert_eq!(to_8_3(&once), once);
    }
}

#[test]
fn test_write_read_file() {
    let mut fs = MemoryDriveFS::new();
    fs.write_file("TEST.COM", &[0xC9]).unwrap();

    assert!(fs.has_file("TEST.COM"));
    assert!(fs.has_file("test.com")); // Case insensitive
    assert_eq!(fs.read_file("TEST.COM"), Some(vec![0xC9]));
}

#[test]
fn test_delete_file() {
    let mut fs = MemoryDriveFS::new();
    fs.write_file("TEST.COM", &[0xC9]).unwrap();

    assert!(fs.delete_file("TEST.COM"));
    assert!(!fs.has_file("TEST.COM"));
    assert!(!fs.delete_file("NOTEXIST.COM"));
}

#[test]
fn memory_drive_test_list_files() {
    let mut fs = MemoryDriveFS::new();
    fs.add_file("A.COM", vec![1]);
    fs.add_file("B.TXT", vec![2]);

    let files = fs.list_files();
    assert_eq!(files.len(), 2);
    assert!(files.contains(&"A.COM".to_string()));
    assert!(files.contains(&"B.TXT".to_string()));
}

#[test]
fn test_with_files() {
    let fs = MemoryDriveFS::with_files(vec![
        ("test.com".to_string(), vec![0xC9]),
        ("hello.txt".to_string(), b"Hello".to_vec()),
    ]);

    assert!(fs.has_file("TEST.COM"));
    assert!(fs.has_file("HELLO.TXT"));
}

#[test]
fn test_read_from_base() {
    let mut base = MemoryDriveFS::new();
    base.add_file("BASE.TXT", b"base content".to_vec());

    let overlay = OverlayDriveFS::new(base);

    assert!(overlay.has_file("BASE.TXT"));
    assert_eq!(overlay.read_file("BASE.TXT"), Some(b"base content".to_vec()));
}

#[test]
fn test_write_to_overlay() {
    let base = MemoryDriveFS::new();
    let mut overlay = OverlayDriveFS::new(base);

    overlay.write_file("NEW.TXT", b"new content").unwrap();

    assert!(overlay.has_file("NEW.TXT"));
    assert_eq!(overlay.read_file("NEW.TXT"), Some(b"new content".to_vec()));
    assert!(!overlay.base().has_file("NEW.TXT")); // Base unchanged
}

#[test]
fn test_override_base_file() {
    let mut base = MemoryDriveFS::new();
    base.add_file("FILE.TXT", b"original".to_vec());

    let mut overlay = OverlayDriveFS::new(base);
    overlay.write_file("FILE.TXT", b"modified").unwrap();

    assert_eq!(overlay.read_file("FILE.TXT"), Some(b"modified".to_vec()));
    assert_eq!(overlay.base().read_file("FILE.TXT"), Some(b"original".to_vec()));
}

#[test]
fn test_delete_base_file() {
    let mut base = MemoryDriveFS::new();
    base.add_file("FILE.TXT", b"content".to_vec());

    let mut overlay = OverlayDriveFS::new(base);
    assert!(overlay.delete_file("FILE.TXT"));

    assert!(!overlay.has_file("FILE.TXT"));
    assert!(overlay.is_deleted("FILE.TXT"));
    assert!(overlay.base().has_file("FILE.TXT")); // Base unchanged
}

#[test]
fn test_undelete_by_write() {
    let mut base = MemoryDriveFS::new();
    base.add_file("FILE.TXT", b"original".to_vec());

    let mut overlay = OverlayDriveFS::new(base);
    overlay.delete_file("FILE.TXT");
    assert!(!overlay.has_file("FILE.TXT"));

    overlay.write_file("FILE.TXT", b"restored").unwrap();
    assert!(overlay.has_file("FILE.TXT"));
    assert!(!overlay.is_deleted("FILE.TXT"));
}

#[test]
fn overlay_drive_test_list_files() {
    let mut base = MemoryDriveFS::new();
    base.add_file("A.TXT", vec![1]);
    base.add_file("B.TXT", vec![2]);

    let mut overlay = OverlayDriveFS::new(base);
    overlay.write_file("C.TXT", &[3]).unwrap();
    overlay.delete_file("A.TXT");

    let files = overlay.list_files();
    assert!(!files.contains(&"A.TXT".to_string())); // Deleted
    assert!(files.contains(&"B.TXT".to_string())); // From base
    assert!(files.contains(&"C.TXT".to_string())); // From overlay
}

#[test]
fn test_overlay_shadowing_scenario() {
    // base has FILE.TXT = "old"; the overlay shadows it with "new", the
    // base stays intact; a delete hides it from the overlay only
    let mut base = MemoryDriveFS::new();
    base.add_file("FILE.TXT", b"old".to_vec());

    let mut overlay = OverlayDriveFS::new(base);
    overlay.write_file("file.txt", b"new").unwrap();
    assert_eq!(overlay.read_file("FILE.TXT"), Some(b"new".to_vec()));
    assert_eq!(overlay.base().read_file("FILE.TXT"), Some(b"old".to_vec()));

    overlay.delete_file("FILE.TXT");
    assert!(!overlay.has_file("FILE.TXT"));
    assert!(overlay.base().has_file("FILE.TXT"));
}

#[test]
fn test_case_insensitive_ops() {
    let mut fs = MemoryDriveFS::new();
    fs.write_file("MiXeD.TxT", b"data").unwrap();
    assert_eq!(fs.read_file("mixed.txt"), fs.read_file("MIXED.TXT"));
    assert!(fs.has_file("Mixed.Txt"));
    assert!(fs.delete_file("mIXED.tXT"));
    assert!(!fs.has_file("MIXED.TXT"));
}
