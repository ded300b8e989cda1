use r2mm::acquire::{Acquisition, Action, Event, Outcome, Stage};
use r2mm::archive::{install, InstallError, InstallStep};
use r2mm::catalog::Catalog;
use r2mm::package::{InstallState, Latest, Package};
use std::io::Write;

fn package(full_name: &str, deps: &[&str]) -> Package {
    Package {
        name: full_name.to_string(),
        full_name: full_name.to_string(),
        owner: "owner".to_string(),
        package_url: String::new(),
        date_created: String::new(),
        date_updated: String::new(),
        rating_score: 0,
        is_pinned: false,
        is_deprecated: false,
        total_downloads: 0,
        latest: Latest {
            name: full_name.to_string(),
            full_name: format!("{}-1.0.0", full_name),
            description: String::new(),
            icon: String::new(),
            version_number: "1.0.0".to_string(),
            dependencies: deps.iter().map(|d| d.to_string()).collect(),
            download_url: format!("https://example.invalid/{}.zip", full_name),
            downloads: 0,
            date_created: String::new(),
            website_url: String::new(),
            is_active: true,
        },
    }
}

fn zip_of(files: &[(&str, &[u8])]) -> Vec<u8> {
    let mut w = zip::ZipWriter::new(std::io::Cursor::new(Vec::new()));
    for (name, data) in files {
        w.start_file(*name, zip::write::SimpleFileOptions::default()).unwrap();
        w.write_all(data).unwrap();
    }
    w.finish().unwrap().into_inner()
}

/// A mod root held in memory: the paths created so far.
struct Disk {
    root: String,
    paths: Vec<String>,
}

impl Disk {
    fn new() -> Disk {
        Disk { root: "/mods".to_string(), paths: Vec::new() }
    }

    fn dirs(&self) -> Vec<String> {
        let prefix = format!("{}/", self.root);
        self.paths
            .iter()
            .filter_map(|p| p.strip_prefix(&prefix))
            .filter(|rest| !rest.is_empty() && !rest.contains('/'))
            .map(|rest| rest.to_string())
            .collect()
    }

    fn apply(&mut self, steps: &[InstallStep]) {
        for s in steps {
            match s {
                InstallStep::CreateDir { path } | InstallStep::WriteFile { path, .. } => {
                    self.paths.push(path.clone())
                }
                InstallStep::SetMode { .. } => {}
            }
        }
    }
}

/// Drives a run to its end; `fetch` gives each package's archive or fails.
fn drive(
    acq: &mut Acquisition,
    disk: &mut Disk,
    fetch: &dyn Fn(&str) -> Option<Vec<u8>>,
) -> Vec<String> {
    let mut installed_order = Vec::new();
    let mut fetched: Option<Vec<u8>> = None;
    loop {
        match acq.next_action() {
            Action::Probe { index } => {
                let name = acq.items[index].full_name.clone();
                let exists = disk.dirs().contains(&name);
                acq.on_event(Event::Probed { exists });
            }
            Action::Fetch { index } => match fetch(&acq.items[index].full_name) {
                Some(b) => {
                    fetched = Some(b);
                    acq.on_event(Event::FetchSucceeded);
                }
                None => acq.on_event(Event::FetchFailed),
            },
            Action::Install { index } => {
                let name = acq.items[index].full_name.clone();
                let exists = disk.dirs().contains(&name);
                let root = disk.root.clone();
                match install(&name, fetched.take().unwrap(), &root, exists) {
                    Ok(x) => {
                        disk.apply(&x.steps);
                        installed_order.push(name);
                        acq.on_event(Event::InstallSucceeded);
                    }
                    Err(error) => acq.on_event(Event::InstallFailed { error }),
                }
            }
            Action::Finish => return installed_order,
        }
    }
}

fn a_b_catalog() -> (Package, Catalog) {
    let a = package("A", &["B-1.0.0"]);
    let b = package("B", &[]);
    let cat = Catalog::new(vec![package("A", &["B-1.0.0"]), b]);
    (a, cat)
}

#[test]
fn end_to_end_installs_dependency_then_target() {
    let (a, cat) = a_b_catalog();
    let mut acq = Acquisition::new(&a, &cat);
    let names: Vec<&str> = acq.items.iter().map(|i| i.full_name.as_str()).collect();
    assert_eq!(names, vec!["B", "A"]);
    let mut disk = Disk::new();
    let order = drive(&mut acq, &mut disk, &|_| Some(zip_of(&[("info.json", b"{}")])));
    assert_eq!(order, vec!["B".to_string(), "A".to_string()]);
    assert_eq!(acq.outcomes, vec![Outcome::Installed, Outcome::Installed]);
    assert_eq!(acq.status(0), InstallState::Downloaded);
    assert_eq!(acq.status(1), InstallState::Downloaded);
    assert!(acq.target_installed());
    let dirs = disk.dirs();
    assert!(dirs.contains(&"A".to_string()));
    assert!(dirs.contains(&"B".to_string()));
}

#[test]
fn failed_dependency_fetch_still_installs_target() {
    let (a, cat) = a_b_catalog();
    let mut acq = Acquisition::new(&a, &cat);
    let mut disk = Disk::new();
    let order = drive(&mut acq, &mut disk, &|name| {
        if name == "B" {
            None
        } else {
            Some(zip_of(&[("info.json", b"{}")]))
        }
    });
    assert_eq!(order, vec!["A".to_string()]);
    assert_eq!(acq.outcomes, vec![Outcome::FetchFailed, Outcome::Installed]);
    assert_eq!(acq.status(0), InstallState::Undownloaded);
    assert!(acq.target_installed());
    assert_eq!(disk.dirs(), vec!["A".to_string()]);
}

#[test]
fn traversal_entry_is_rejected_with_nothing_written() {
    let bytes = zip_of(&[("ok.txt", b"fine"), ("../../etc/evil", b"bad")]);
    let r = install(&"A".to_string(), bytes.clone(), &"/mods".to_string(), false);
    assert!(matches!(r, Err(InstallError::UnsafePath)));

    let a = package("A", &[]);
    let cat = Catalog::new(vec![package("A", &[])]);
    let mut acq = Acquisition::new(&a, &cat);
    let mut disk = Disk::new();
    let order = drive(&mut acq, &mut disk, &|_| Some(bytes.clone()));
    assert!(order.is_empty());
    assert_eq!(acq.outcomes, vec![Outcome::InstallFailed(InstallError::UnsafePath)]);
    assert!(!acq.target_installed());
    assert!(disk.paths.is_empty());
}

#[test]
fn already_installed_packages_are_not_fetched() {
    let (a, cat) = a_b_catalog();
    let mut acq = Acquisition::new(&a, &cat);
    let mut disk = Disk::new();
    disk.paths.push("/mods/B".to_string());
    let order = drive(&mut acq, &mut disk, &|name| {
        assert_ne!(name, "B");
        Some(zip_of(&[("info.json", b"{}")]))
    });
    assert_eq!(order, vec!["A".to_string()]);
    assert_eq!(acq.outcomes, vec![Outcome::AlreadyInstalled, Outcome::Installed]);
}

#[test]
fn cancellation_stops_before_the_next_package() {
    let (a, cat) = a_b_catalog();
    let mut acq = Acquisition::new(&a, &cat);
    assert_eq!(acq.next_action(), Action::Probe { index: 0 });
    acq.on_event(Event::Probed { exists: false });
    assert_eq!(acq.status(0), InstallState::Downloading);
    acq.on_event(Event::Cancelled);
    assert_eq!(acq.next_action(), Action::Fetch { index: 0 });
    acq.on_event(Event::FetchSucceeded);
    assert_eq!(acq.next_action(), Action::Install { index: 0 });
    acq.on_event(Event::InstallSucceeded);
    assert_eq!(acq.next_action(), Action::Finish);
    assert_eq!(acq.outcomes, vec![Outcome::Installed]);
    assert!(!acq.target_installed());
}

#[test]
fn events_that_do_not_answer_the_action_change_nothing() {
    let (a, cat) = a_b_catalog();
    let mut acq = Acquisition::new(&a, &cat);
    acq.on_event(Event::InstallSucceeded);
    acq.on_event(Event::FetchFailed);
    assert_eq!(acq.stage, Stage::Probing);
    assert!(acq.outcomes.is_empty());
    assert_eq!(acq.next_action(), Action::Probe { index: 0 });
}

#[test]
fn install_failure_is_recorded_and_run_goes_on() {
    let (a, cat) = a_b_catalog();
    let mut acq = Acquisition::new(&a, &cat);
    acq.on_event(Event::Probed { exists: false });
    acq.on_event(Event::FetchSucceeded);
    acq.on_event(Event::InstallFailed { error: InstallError::Io });
    assert_eq!(acq.next_action(), Action::Probe { index: 1 });
    acq.on_event(Event::Probed { exists: true });
    assert_eq!(acq.next_action(), Action::Finish);
    assert_eq!(
        acq.outcomes,
        vec![Outcome::InstallFailed(InstallError::Io), Outcome::AlreadyInstalled]
    );
    assert!(acq.target_installed());
}
