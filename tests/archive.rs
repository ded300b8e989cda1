use r2mm::archive::{
    check_entry_name, check_package_dir, install, plan_extraction, read_archive, ArchiveEntry,
    InstallError, InstallStep,
};
use std::io::Write;

fn entry(name: &str, mode: Option<u32>) -> ArchiveEntry {
    ArchiveEntry { name: name.to_string(), unix_mode: mode, data: b"x".to_vec() }
}

fn describe(steps: &[InstallStep]) -> Vec<String> {
    steps
        .iter()
        .map(|s| match s {
            InstallStep::CreateDir { path } => format!("mkdir {}", path),
            InstallStep::WriteFile { path, entry } => format!("write {} <- {}", path, entry),
            InstallStep::SetMode { path, mode } => format!("chmod {:o} {}", mode, path),
        })
        .collect()
}

fn zip_with_dir() -> Vec<u8> {
    let mut w = zip::ZipWriter::new(std::io::Cursor::new(Vec::new()));
    w.add_directory("plugins/", zip::write::SimpleFileOptions::default()).unwrap();
    w.start_file("plugins/mod.dll", zip::write::SimpleFileOptions::default().unix_permissions(0o755))
        .unwrap();
    w.write_all(b"MZ").unwrap();
    w.start_file("info.json", zip::write::SimpleFileOptions::default()).unwrap();
    w.write_all(b"{\"name\":\"m\"}").unwrap();
    w.finish().unwrap().into_inner()
}

#[test]
fn plan_places_every_entry_under_the_package_directory() {
    let entries = vec![entry("dir/", None), entry("dir/sub/a.txt", Some(0o644)), entry("b.txt", None)];
    let steps = plan_extraction(&"/mods".to_string(), &"P".to_string(), &entries).unwrap();
    assert_eq!(
        describe(&steps),
        vec![
            "mkdir /mods/P",
            "mkdir /mods/P/dir/",
            "mkdir /mods/P/dir/sub",
            "write /mods/P/dir/sub/a.txt <- 1",
            "chmod 644 /mods/P/dir/sub/a.txt",
            "write /mods/P/b.txt <- 2",
        ]
    );
}

#[test]
fn absolute_entry_is_unsafe() {
    let entries = vec![entry("a.txt", None), entry("/etc/passwd", None)];
    let r = plan_extraction(&"/mods".to_string(), &"P".to_string(), &entries);
    assert!(matches!(r, Err(InstallError::UnsafePath)));
    let entries = vec![entry("\\windows\\x", None)];
    let r = plan_extraction(&"/mods".to_string(), &"P".to_string(), &entries);
    assert!(matches!(r, Err(InstallError::UnsafePath)));
}

#[test]
fn entry_name_checks() {
    assert!(check_entry_name(&"a/b/c.txt".to_string()));
    assert!(check_entry_name(&"a..b/..c".to_string()));
    assert!(check_entry_name(&"./x".to_string()));
    assert!(!check_entry_name(&"..".to_string()));
    assert!(!check_entry_name(&"a/../../b".to_string()));
    assert!(!check_entry_name(&"a\\..\\b".to_string()));
    assert!(!check_entry_name(&"a/..".to_string()));
    assert!(!check_entry_name(&"/abs".to_string()));
}

#[test]
fn package_name_checks() {
    assert!(check_package_dir(&"owner-Pack".to_string()));
    assert!(!check_package_dir(&"".to_string()));
    assert!(!check_package_dir(&".".to_string()));
    assert!(!check_package_dir(&"..".to_string()));
    assert!(!check_package_dir(&"a/b".to_string()));
    let r = install(&"../x".to_string(), Vec::new(), &"/mods".to_string(), false);
    assert!(matches!(r, Err(InstallError::UnsafePath)));
}

#[test]
fn install_twice_extracts_once() {
    let bytes = zip_with_dir();
    let first = install(&"P".to_string(), bytes.clone(), &"/mods".to_string(), false).unwrap();
    assert_eq!(first.entries.len(), 3);
    assert_eq!(describe(&first.steps)[0], "mkdir /mods/P");
    let second = install(&"P".to_string(), bytes, &"/mods".to_string(), true).unwrap();
    assert!(second.steps.is_empty());
    assert!(second.entries.is_empty());
}

#[test]
fn existing_directory_is_accepted_before_any_check() {
    for name in ["..", ".", "a/b"] {
        let r = install(&name.to_string(), b"not a zip".to_vec(), &"/mods".to_string(), true).unwrap();
        assert!(r.steps.is_empty());
        assert!(r.entries.is_empty());
    }
}

#[test]
fn existing_directory_is_not_decoded() {
    let r = install(&"P".to_string(), b"not a zip".to_vec(), &"/mods".to_string(), true).unwrap();
    assert!(r.steps.is_empty());
}

#[test]
fn decodes_names_modes_and_data() {
    let entries = read_archive(zip_with_dir()).ok().unwrap();
    let names: Vec<&str> = entries.iter().map(|e| e.name.as_str()).collect();
    assert_eq!(names, vec!["plugins/", "plugins/mod.dll", "info.json"]);
    assert_eq!(entries[1].data, b"MZ".to_vec());
    assert_eq!(entries[1].unix_mode.map(|m| m & 0o777), Some(0o755));
    assert_eq!(entries[2].data, b"{\"name\":\"m\"}".to_vec());
}

#[test]
fn truncated_archive_is_corrupt() {
    let bytes = zip_with_dir();
    let cut = bytes[..bytes.len() / 2].to_vec();
    let r = install(&"P".to_string(), cut, &"/mods".to_string(), false);
    assert!(matches!(r, Err(InstallError::ArchiveCorrupt)));
    let again = install(&"P".to_string(), bytes[..bytes.len() / 2].to_vec(), &"/mods".to_string(), false);
    assert!(matches!(again, Err(InstallError::ArchiveCorrupt)));
}

#[test]
fn corrupt_archive_is_reported() {
    let r = read_archive(b"definitely not a zip archive".to_vec());
    assert!(matches!(r, Err(InstallError::ArchiveCorrupt)));
    let r = install(&"P".to_string(), Vec::new(), &"/mods".to_string(), false);
    assert!(matches!(r, Err(InstallError::ArchiveCorrupt)));
}
