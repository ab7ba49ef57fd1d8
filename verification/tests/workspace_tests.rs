use std::io::{Cursor, Write};

use cpm_core::{drive_index, find_shell, load_package, AnyDrive, CpmError, MemoryDriveFS,
    Workspace};

#[test]
fn test_workspace_mount_unmount() {
    let mut ws = Workspace::new();

    ws.create_memory_drive('A').unwrap();
    assert!(ws.is_mounted('A'));
    assert!(!ws.is_mounted('B'));

    ws.write_file('A', "TEST.TXT", b"Hello").unwrap();
    let data = ws.read_file('A', "TEST.TXT").unwrap();
    assert_eq!(data, b"Hello");

    ws.unmount('A').unwrap();
    assert!(!ws.is_mounted('A'));
}

#[test]
fn test_drive_index() {
    assert_eq!(drive_index('A').unwrap(), 0);
    assert_eq!(drive_index('a').unwrap(), 0);
    assert_eq!(drive_index('P').unwrap(), 15);
    assert!(drive_index('Q').is_err());
    assert!(drive_index('Z').is_err());
}

#[test]
fn test_workspace_list_and_delete() {
    let mut ws = Workspace::new();
    let mut fs = MemoryDriveFS::new();
    fs.add_file_str("ONE.TXT", "1");
    fs.add_file_str("TWO.TXT", "2");
    ws.mount('B', AnyDrive::Memory(fs)).unwrap();

    let names = ws.list_files('B').unwrap();
    assert_eq!(names.len(), 2);
    assert!(ws.file_exists('B', "one.txt"));
    assert!(ws.delete_file('B', "ONE.TXT").unwrap());
    assert!(!ws.file_exists('B', "ONE.TXT"));
}

#[test]
fn test_find_shell_by_manifest_type() {
    // a manifest marking XSH.COM as the shell at 0xDC00 wins over fallbacks
    let mut buf = Vec::new();
    {
        let cursor = Cursor::new(&mut buf);
        let mut zip = zip::ZipWriter::new(cursor);
        let options = zip::write::SimpleFileOptions::default();
        let manifest = r#"{
            "name": "Shell Pack",
            "files": [
                { "src": "XSH.COM", "type": "shell", "loadAddress": "0xDC00" },
                { "src": "CCP.COM" }
            ]
        }"#;
        zip.start_file("manifest.mf", options).unwrap();
        zip.write_all(manifest.as_bytes()).unwrap();
        zip.start_file("XSH.COM", options).unwrap();
        zip.write_all(&[0x76]).unwrap();
        zip.start_file("CCP.COM", options).unwrap();
        zip.write_all(&[0xC9]).unwrap();
        zip.finish().unwrap();
    }
    let pkg = load_package(&buf).unwrap();
    let shell = find_shell(&vec![pkg]).unwrap();
    assert_eq!(shell.filename, "XSH.COM");
    assert_eq!(shell.load_address, 0xDC00);
    assert_eq!(shell.binary, vec![0x76]);
}

#[test]
fn test_find_shell_fallback_names() {
    let mut buf = Vec::new();
    {
        let cursor = Cursor::new(&mut buf);
        let mut zip = zip::ZipWriter::new(cursor);
        let options = zip::write::SimpleFileOptions::default();
        zip.start_file("CCP.COM", options).unwrap();
        zip.write_all(&[0xC9]).unwrap();
        zip.finish().unwrap();
    }
    let pkg = load_package(&buf).unwrap();
    let shell = find_shell(&vec![pkg]).unwrap();
    assert_eq!(shell.filename, "CCP.COM");
    assert_eq!(shell.load_address, 0x0100);
}

#[test]
fn test_workspace_find_shell() {
    let mut buf = Vec::new();
    {
        let cursor = Cursor::new(&mut buf);
        let mut zip = zip::ZipWriter::new(cursor);
        let options = zip::write::SimpleFileOptions::default();
        let manifest = r#"{
            "name": "Sys",
            "files": [ { "src": "XSH.COM", "type": "shell", "loadAddress": "0xDC00" } ]
        }"#;
        zip.start_file("manifest.mf", options).unwrap();
        zip.write_all(manifest.as_bytes()).unwrap();
        zip.start_file("XSH.COM", options).unwrap();
        zip.write_all(&[0x76]).unwrap();
        zip.finish().unwrap();
    }
    let pkg = load_package(&buf).unwrap();

    let mut ws = Workspace::new();
    ws.cache_package("Sys", pkg.clone());
    let config = cpm_core::DriveConfig {
        letter: 'A',
        packages: vec!["sys".to_string()],
        writable: true,
    };
    ws.configure_drive(config, vec![pkg]).unwrap();

    let shell = ws.find_shell().unwrap();
    assert_eq!(shell.filename, "XSH.COM");
    assert_eq!(shell.load_address, 0xDC00);
    assert_eq!(shell.drive, 'A');
    assert_eq!(shell.package_name, "Sys");
}

#[test]
fn test_error_variants() {
    // a letter outside A-P is an invalid drive
    assert_eq!(drive_index('Q'), Err(CpmError::InvalidDrive('Q')));

    // writing to an unmounted drive reports it
    let mut ws = Workspace::new();
    assert_eq!(
        ws.write_file('B', "X.TXT", b"x"),
        Err(CpmError::DriveNotMounted('B'))
    );

    // bytes that are not a ZIP archive are refused as such
    assert_eq!(load_package(b"not an archive").err(), Some(CpmError::ArchiveFormat));
}

#[test]
fn test_parse_load_address_cases() {
    assert_eq!(cpm_core::workspace::parse_load_address("0xDC00"), Some(0xDC00));
    assert_eq!(cpm_core::workspace::parse_load_address("0XDC00"), Some(0xDC00));
    assert_eq!(cpm_core::workspace::parse_load_address("100"), Some(0x100));
    assert_eq!(cpm_core::workspace::parse_load_address("FFFF"), Some(0xFFFF));
    assert_eq!(cpm_core::workspace::parse_load_address("10000"), None); // does not fit 16 bits
    assert_eq!(cpm_core::workspace::parse_load_address("0x"), None); // nothing after the prefix
    assert_eq!(cpm_core::workspace::parse_load_address("12G4"), None); // not a hex digit
}

#[test]
fn test_find_shell_scans_drives_in_order() {
    // CCP.COM on both D: and B: - the scan hits B first
    let mut ws = Workspace::new();
    let mut fs1 = MemoryDriveFS::new();
    fs1.add_file("CCP.COM", vec![0xC9]);
    let mut fs2 = MemoryDriveFS::new();
    fs2.add_file("CCP.COM", vec![0x76]);
    ws.mount('D', AnyDrive::Memory(fs1)).unwrap();
    ws.mount('B', AnyDrive::Memory(fs2)).unwrap();

    let shell = ws.find_shell().unwrap();
    assert_eq!(shell.drive, 'B');
    assert_eq!(shell.binary, vec![0x76]);
}

#[test]
fn test_reconfigure_replaces_drive_config() {
    // reconfiguring a letter replaces its configuration; lookups see the
    // new package list
    let mut ws = Workspace::new();
    let old_config = cpm_core::DriveConfig {
        letter: 'A',
        packages: vec!["old".to_string()],
        writable: false,
    };
    ws.configure_drive(old_config, vec![]).unwrap();
    let new_config = cpm_core::DriveConfig {
        letter: 'a',
        packages: vec!["new".to_string()],
        writable: true,
    };
    ws.configure_drive(new_config, vec![]).unwrap();

    let cfg = ws.get_drive_config('A').unwrap();
    assert_eq!(cfg.packages, vec!["new".to_string()]);
    assert!(cfg.writable);
}
