use r2mm::catalog::{
    check_pkg, installed_state, manifest_text, package_states, pkg_from_manifest, scan_installed,
    Catalog,
};
use r2mm::launcher::launch_args;
use r2mm::package::{InstallState, Latest, Manifest, Package};
use r2mm::resolve::resolve;

fn package(full_name: &str, name: &str, deps: &[&str]) -> Package {
    Package {
        name: name.to_string(),
        full_name: full_name.to_string(),
        owner: "owner".to_string(),
        package_url: String::new(),
        date_created: String::new(),
        date_updated: String::new(),
        rating_score: 5,
        is_pinned: false,
        is_deprecated: false,
        total_downloads: 10,
        latest: Latest {
            name: name.to_string(),
            full_name: format!("{}-1.0.0", full_name),
            description: String::new(),
            icon: String::new(),
            version_number: "1.0.0".to_string(),
            dependencies: deps.iter().map(|d| d.to_string()).collect(),
            download_url: format!("https://example.invalid/{}.zip", full_name),
            downloads: 0,
            date_created: String::new(),
            website_url: String::new(),
            is_active: true,
        },
    }
}

fn manifest(name: &str) -> Manifest {
    Manifest {
        name: name.to_string(),
        version_number: "1.0.0".to_string(),
        website_url: String::new(),
        description: String::new(),
        dependencies: Vec::new(),
    }
}

#[test]
fn resolve_takes_each_dependency_in_order() {
    let target = package("T", "T", &["C-2.0.0", "missing-1.0.0", "B-1.0.0"]);
    let cat = Catalog::new(vec![package("B", "B", &[]), package("C", "C", &[])]);
    assert_eq!(resolve(&target, &cat), vec![1, 0]);
}

#[test]
fn resolve_is_deterministic() {
    let target = package("T", "T", &["x-B-1.0.0", "x-C-1.0.0"]);
    let cat = Catalog::new(vec![package("x-C", "C", &[]), package("x-B", "B", &[])]);
    let first = resolve(&target, &cat);
    let second = resolve(&target, &cat);
    assert_eq!(first, second);
    assert_eq!(first, vec![1, 0]);
}

#[test]
fn ambiguous_prefix_is_dropped() {
    let target = package("T", "T", &["B-1.0.0", "C-1.0.0"]);
    let cat = Catalog::new(vec![
        package("B", "B", &[]),
        package("B-1", "B1", &[]),
        package("C", "C", &[]),
    ]);
    assert_eq!(resolve(&target, &cat), vec![2]);
}

#[test]
fn installed_state_follows_the_directory() {
    let p = package("owner-Mod", "Mod", &[]);
    let mut dirs = vec!["other".to_string()];
    assert_eq!(installed_state(&p, &dirs), InstallState::Undownloaded);
    assert!(!check_pkg(&p, &dirs));
    dirs.push("owner-Mod".to_string());
    assert_eq!(installed_state(&p, &dirs), InstallState::Downloaded);
    assert!(check_pkg(&p, &dirs));
    dirs.retain(|d| d != "owner-Mod");
    assert_eq!(installed_state(&p, &dirs), InstallState::Undownloaded);
}

#[test]
fn package_states_cover_the_catalog() {
    let cat = Catalog::new(vec![package("A", "A", &[]), package("B", "B", &[])]);
    let states = package_states(&cat, &vec!["B".to_string()]);
    assert_eq!(states, vec![InstallState::Undownloaded, InstallState::Downloaded]);
}

#[test]
fn catalog_keeps_the_first_of_a_repeated_name() {
    let cat = Catalog::new(vec![
        package("A", "first", &[]),
        package("B", "B", &[]),
        package("A", "second", &[]),
    ]);
    assert_eq!(cat.packages.len(), 2);
    assert_eq!(cat.packages[0].name, "first");
    assert_eq!(cat.lookup(&"A".to_string()).map(|p| p.name.clone()), Some("first".to_string()));
    assert!(cat.lookup(&"Z".to_string()).is_none());
}

#[test]
fn package_from_manifest_by_name() {
    let pkgs = vec![package("o-A", "A", &[]), package("o-B", "B", &[]), package("p-B", "B", &[])];
    let found = pkg_from_manifest(manifest("B"), pkgs.clone()).unwrap();
    assert_eq!(found.full_name, "o-B");
    assert!(pkg_from_manifest(manifest("C"), pkgs).is_none());
}

#[test]
fn manifest_text_strips_a_byte_order_mark() {
    let raw = b"\xef\xbb\xbf{\"name\":\"A\"}".to_vec();
    assert_eq!(manifest_text(&raw), b"{\"name\":\"A\"}".to_vec());
    let plain = b"{\"name\":\"A\"}".to_vec();
    assert_eq!(manifest_text(&plain), plain);
    let utf16 = b"\xff\xfe{\x00".to_vec();
    assert_eq!(manifest_text(&utf16), b"{\x00".to_vec());
    assert_eq!(manifest_text(&Vec::new()), Vec::<u8>::new());
}

#[test]
fn marked_and_unmarked_manifests_read_alike() {
    let plain = b"{\"name\":\"A\",\"version_number\":\"1.0.0\"}".to_vec();
    let mut marked = vec![0xef, 0xbb, 0xbf];
    marked.extend_from_slice(&plain);
    assert_eq!(manifest_text(&marked), manifest_text(&plain));
    assert_eq!(manifest_text(&plain), plain);
}

#[test]
fn scan_skips_unreadable_manifests() {
    let found = vec![Some(manifest("A")), None, Some(manifest("C")), None];
    let names: Vec<String> = scan_installed(found).into_iter().map(|m| m.name).collect();
    assert_eq!(names, vec!["A".to_string(), "C".to_string()]);
    assert!(scan_installed(Vec::new()).is_empty());
}

#[test]
fn launch_arguments() {
    assert_eq!(launch_args(false, &"/mods".to_string()), vec!["-applaunch", "632360"]);
    assert_eq!(
        launch_args(true, &"/mods".to_string()),
        vec![
            "-applaunch",
            "632360",
            "--doorstop-enable",
            "true",
            "--doorstop-target",
            "/mods/bbepis-BepInExPack/BepInExPack/BepInEx/core/BepInEx.Preloader.dll",
        ]
    );
}
