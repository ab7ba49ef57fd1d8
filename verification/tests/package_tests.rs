use std::io::{Cursor, Write};

use cpm_core::{
    action_matches_file, expand_submit_template, load_package, DriveFS, PackageAction,
    PackageDriveFS,
};

fn create_test_zip() -> Vec<u8> {
    let mut buf = Vec::new();
    {
        let cursor = Cursor::new(&mut buf);
        let mut zip = zip::ZipWriter::new(cursor);
        let options = zip::write::SimpleFileOptions::default();

        let manifest = r#"{
            "id": "test-pkg",
            "name": "Test Package",
            "version": "1.0",
            "files": [
                { "src": "HELLO.COM" },
                { "src": "TEST.TXT" }
            ],
            "actions": [
                {
                    "id": "run",
                    "name": "Run",
                    "command": "HELLO",
                    "patterns": ["*.COM"]
                }
            ]
        }"#;
        zip.start_file("manifest.mf", options).unwrap();
        zip.write_all(manifest.as_bytes()).unwrap();

        zip.start_file("HELLO.COM", options).unwrap();
        zip.write_all(b"\xC3\x00\x00").unwrap(); // JP 0

        zip.start_file("TEST.TXT", options).unwrap();
        zip.write_all(b"Hello World").unwrap();

        zip.finish().unwrap();
    }
    buf
}

fn has_file(pkg_files: &Vec<(String, Vec<u8>)>, name: &str) -> bool {
    pkg_files.iter().any(|(n, _)| n == name)
}

#[test]
fn test_load_package() {
    let zip_data = create_test_zip();
    let pkg = load_package(&zip_data).unwrap();

    assert_eq!(pkg.manifest.name, "Test Package");
    assert_eq!(pkg.manifest.id, Some("test-pkg".to_string()));
    assert_eq!(pkg.files.len(), 2);
    assert!(has_file(&pkg.files, "HELLO.COM"));
    assert!(has_file(&pkg.files, "TEST.TXT"));
    assert_eq!(pkg.actions.len(), 1);
    assert_eq!(pkg.actions[0].id, "run");
}

#[test]
fn test_package_drive_fs() {
    let zip_data = create_test_zip();
    let pkg = load_package(&zip_data).unwrap();
    let fs = PackageDriveFS::from_packages(vec![pkg]);

    assert!(fs.has_file("HELLO.COM"));
    assert!(fs.has_file("TEST.TXT"));
    assert!(fs.has_file("MANIFEST.MF")); // virtual

    let content = fs.read_file("TEST.TXT").unwrap();
    assert_eq!(content, b"Hello World");

    let files = fs.list_files();
    assert!(files.contains(&"HELLO.COM".to_string()));
    assert!(files.contains(&"TEST.TXT".to_string()));
    assert!(files.contains(&"MANIFEST.MF".to_string()));
}

#[test]
fn test_package_drive_is_read_only() {
    let zip_data = create_test_zip();
    let pkg = load_package(&zip_data).unwrap();
    let mut fs = PackageDriveFS::from_packages(vec![pkg]);

    assert_eq!(fs.write_file("NEW.TXT", b"x"), Err(cpm_core::CpmError::ReadOnly));
    assert!(!fs.delete_file("HELLO.COM"));
    assert!(fs.has_file("HELLO.COM"));
}

#[test]
fn test_virtual_manifest_without_manifest_file() {
    // an archive with HELLO.COM and no manifest: the drive lists HELLO.COM
    // and a virtual MANIFEST.MF whose bytes are valid JSON naming HELLO.COM
    // among files[].src
    let mut buf = Vec::new();
    {
        let cursor = Cursor::new(&mut buf);
        let mut zip = zip::ZipWriter::new(cursor);
        let options = zip::write::SimpleFileOptions::default();
        zip.start_file("HELLO.COM", options).unwrap();
        zip.write_all(b"\xC9").unwrap();
        zip.finish().unwrap();
    }
    let pkg = load_package(&buf).unwrap();
    assert_eq!(pkg.manifest.name, "Unknown Package");

    let fs = PackageDriveFS::from_packages(vec![pkg]);
    let files = fs.list_files();
    assert!(files.contains(&"HELLO.COM".to_string()));
    assert!(files.contains(&"MANIFEST.MF".to_string()));

    let bytes = fs.read_file("MANIFEST.MF").unwrap();
    let v: serde_json::Value = serde_json::from_slice(&bytes).unwrap();
    let srcs: Vec<&str> = v["files"]
        .as_array()
        .unwrap()
        .iter()
        .map(|f| f["src"].as_str().unwrap())
        .collect();
    assert!(srcs.contains(&"HELLO.COM"));
}

fn sample_action(patterns: Vec<&str>, submit: Option<&str>) -> PackageAction {
    PackageAction {
        id: "test".to_string(),
        name: "Test".to_string(),
        command: "TEST".to_string(),
        patterns: patterns.into_iter().map(|s| s.to_string()).collect(),
        output_exts: vec![],
        submit: submit.map(|s| s.to_string()),
        interactive_script: None,
        package: None,
    }
}

#[test]
fn test_action_matches_file() {
    let action = sample_action(vec!["*.ASM", "*.COM"], None);

    assert!(action_matches_file(&action, "TEST.ASM"));
    assert!(action_matches_file(&action, "hello.com"));
    assert!(!action_matches_file(&action, "test.txt"));
}

#[test]
fn test_expand_submit_template() {
    let mut action = sample_action(vec!["*.ASM"], Some("{drive}:\rA:ASM {drive}:{name}\r"));
    action.id = "asm".to_string();
    action.name = "ASM".to_string();
    action.command = "ASM".to_string();

    let result = expand_submit_template(&action, "TEST", Some('B'));
    assert_eq!(result, "B:\rA:ASM B:TEST\r");
}

#[test]
fn test_expand_submit_default_template() {
    let action = sample_action(vec![], None);
    let result = expand_submit_template(&action, "WORK", None);
    assert_eq!(result, "TEST WORK\r");
}

#[test]
fn test_package_listing_is_sorted() {
    let mut buf = Vec::new();
    {
        let cursor = Cursor::new(&mut buf);
        let mut zip = zip::ZipWriter::new(cursor);
        let options = zip::write::SimpleFileOptions::default();
        for name in ["ZZZ.COM", "AAA.COM", "MMM.COM"] {
            zip.start_file(name, options).unwrap();
            zip.write_all(&[0xC9]).unwrap();
        }
        zip.finish().unwrap();
    }
    let pkg = load_package(&buf).unwrap();
    let fs = PackageDriveFS::from_packages(vec![pkg]);
    let files = fs.list_files();
    assert_eq!(files, vec!["AAA.COM", "MANIFEST.MF", "MMM.COM", "ZZZ.COM"]);
}
