use r2mm::acquire::Acquisition;
use r2mm::catalog::Catalog;
use r2mm::closure::resolve_all;
use r2mm::locks::ExtractionLocks;
use r2mm::package::{Latest, Package};
use r2mm::resolve::resolve;

fn package(full_name: &str, deps: &[&str]) -> Package {
    Package {
        name: full_name.to_string(),
        full_name: full_name.to_string(),
        owner: "o".to_string(),
        package_url: String::new(),
        date_created: String::new(),
        date_updated: String::new(),
        rating_score: 0,
        is_pinned: false,
        is_deprecated: false,
        total_downloads: 0,
        latest: Latest {
            name: full_name.to_string(),
            full_name: format!("{}-1.0.0", full_name),
            description: String::new(),
            icon: String::new(),
            version_number: "1.0.0".to_string(),
            dependencies: deps.iter().map(|d| d.to_string()).collect(),
            download_url: format!("https://example.invalid/{}.zip", full_name),
            downloads: 0,
            date_created: String::new(),
            website_url: String::new(),
            is_active: true,
        },
    }
}

fn names(cat: &Catalog, order: &[usize]) -> Vec<String> {
    order.iter().map(|&i| cat.packages[i].full_name.clone()).collect()
}

#[test]
fn transitive_chain_comes_dependency_first() {
    let cat = Catalog::new(vec![
        package("A", &["B-1.0.0"]),
        package("B", &["C-1.0.0"]),
        package("C", &[]),
    ]);
    let target = package("T", &["A-1.0.0"]);
    assert_eq!(names(&cat, &resolve_all(&target, &cat)), vec!["C", "B", "A"]);
    // the single-level resolver reads the target's own list only
    assert_eq!(names(&cat, &resolve(&target, &cat)), vec!["A"]);
}

#[test]
fn shared_dependency_is_listed_once_at_first_sight() {
    let cat = Catalog::new(vec![
        package("A", &["C-1.0.0"]),
        package("B", &["C-1.0.0"]),
        package("C", &[]),
    ]);
    let target = package("T", &["A-1.0.0", "B-1.0.0", "C-1.0.0"]);
    assert_eq!(names(&cat, &resolve_all(&target, &cat)), vec!["C", "A", "B"]);
}

#[test]
fn cycle_is_broken_and_terminates() {
    let cat = Catalog::new(vec![package("A", &["B-1.0.0"]), package("B", &["A-1.0.0"])]);
    let target = package("T", &["A-1.0.0"]);
    assert_eq!(names(&cat, &resolve_all(&target, &cat)), vec!["B", "A"]);
}

#[test]
fn target_is_never_its_own_dependency() {
    let cat = Catalog::new(vec![package("T", &["A-1.0.0"]), package("A", &["T-1.0.0"])]);
    let target = package("T", &["A-1.0.0", "T-1.0.0"]);
    assert_eq!(names(&cat, &resolve_all(&target, &cat)), vec!["A"]);
}

#[test]
fn transitive_run_installs_in_resolved_order() {
    let cat = Catalog::new(vec![package("A", &["B-1.0.0"]), package("B", &[])]);
    let target = package("T", &["A-1.0.0"]);
    let order = resolve_all(&target, &cat);
    let acq = Acquisition::from_positions(&target, &cat, &order);
    let items: Vec<&str> = acq.items.iter().map(|i| i.full_name.as_str()).collect();
    assert_eq!(items, vec!["B", "A", "T"]);
    assert_eq!(acq.items[0].download_url, "https://example.invalid/B.zip");
}

#[test]
fn one_extraction_per_package_at_a_time() {
    let mut locks = ExtractionLocks::new();
    let a = "A".to_string();
    let b = "B".to_string();
    assert!(locks.try_claim(&a));
    assert!(!locks.try_claim(&a));
    assert!(locks.try_claim(&b));
    locks.release(&a);
    assert!(locks.try_claim(&a));
    locks.release(&b);
    locks.release(&b);
    assert_eq!(locks.held, vec!["A".to_string()]);
}
