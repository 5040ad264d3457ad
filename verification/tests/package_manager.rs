use bpm::args::{has_package_shape, parse_pkg_arg};
use bpm::lifecycle::{list_installed, remove_package, update_package};
use bpm::manifest::{Manifest, PackageEntry, PackageVersion, VersionEntry};
use bpm::resolver::{install_package, Action, InstallError};
use bpm::state::InstalledDb;

fn pv(path: &str, binaries: &[&str], deps: &[&str]) -> PackageVersion {
    PackageVersion {
        path: path.to_string(),
        binaries: binaries.iter().map(|s| s.to_string()).collect(),
        dependencies: deps.iter().map(|s| s.to_string()).collect(),
    }
}

fn entry(version: &str, p: PackageVersion) -> VersionEntry {
    VersionEntry { version: version.to_string(), package: p }
}

fn pkg(name: &str, versions: Vec<VersionEntry>) -> PackageEntry {
    PackageEntry { name: name.to_string(), versions }
}

fn count_copies(actions: &[Action], dest: &str) -> usize {
    let mut n = 0;
    for a in actions {
        if let Action::CopyBinary { dest: d, .. } = a {
            if d == dest {
                n += 1;
            }
        }
    }
    n
}

fn count_cycles(actions: &[Action]) -> usize {
    let mut n = 0;
    for a in actions {
        if let Action::CycleDetected { .. } = a {
            n += 1;
        }
    }
    n
}

#[test]
fn version_selection_picks_ordinal_maximum() {
    let m = Manifest {
        packages: vec![pkg(
            "tool",
            vec![
                entry("1.0", pv("/src/tool", &[], &[])),
                entry("2.0", pv("/src/tool", &[], &[])),
                entry("1.5", pv("/src/tool", &[], &[])),
            ],
        )],
    };
    let out = install_package(&m, InstalledDb::new(), "/store", "main", "tool", None);
    assert!(out.status.is_ok());
    let rec = out.db.get("tool").unwrap();
    assert_eq!(rec.version, "2.0");
}

#[test]
fn version_selection_honours_request() {
    let m = Manifest {
        packages: vec![pkg(
            "tool",
            vec![
                entry("1.0", pv("/src/tool", &[], &[])),
                entry("2.0", pv("/src/tool", &[], &[])),
                entry("1.5", pv("/src/tool", &[], &[])),
            ],
        )],
    };
    let out = install_package(&m, InstalledDb::new(), "/store", "main", "tool", Some("1.5"));
    assert!(out.status.is_ok());
    let rec = out.db.get("tool").unwrap();
    assert_eq!(rec.version, "1.5");
}

#[test]
fn missing_package_is_hard_error_and_leaves_state_unchanged() {
    let m = Manifest { packages: vec![pkg("a", vec![entry("1.0", pv("/src/a", &[], &[]))])] };
    let mut db = InstalledDb::new();
    db.insert(
        "other".to_string(),
        bpm::state::InstalledRecord {
            repo: "main".to_string(),
            version: "1.0".to_string(),
            binaries: vec![],
        },
    );
    let out = install_package(&m, db, "/store", "main", "ghost", None);
    match out.status {
        Err(InstallError::PackageNotFound { package, repo }) => {
            assert_eq!(package, "ghost");
            assert_eq!(repo, "main");
        }
        _ => panic!("expected PackageNotFound"),
    }
    assert!(out.actions.is_empty());
    assert_eq!(list_installed(&out.db).len(), 1);
    assert_eq!(list_installed(&out.db)[0].name, "other");
}

#[test]
fn missing_version_is_hard_error_and_leaves_state_unchanged() {
    let m = Manifest { packages: vec![pkg("a", vec![entry("1.0", pv("/src/a", &[], &[]))])] };
    let out = install_package(&m, InstalledDb::new(), "/store", "main", "a", Some("9.9"));
    match out.status {
        Err(InstallError::VersionNotFound { package, version }) => {
            assert_eq!(package, "a");
            assert_eq!(version, "9.9");
        }
        _ => panic!("expected VersionNotFound"),
    }
    assert!(out.actions.is_empty());
    assert_eq!(list_installed(&out.db).len(), 0);
}

#[test]
fn package_with_no_versions_reports_version_not_found() {
    let m = Manifest { packages: vec![pkg("bare", vec![])] };
    let out = install_package(&m, InstalledDb::new(), "/store", "main", "bare", None);
    match out.status {
        Err(InstallError::VersionNotFound { package, version }) => {
            assert_eq!(package, "bare");
            assert_eq!(version, "");
        }
        _ => panic!("expected VersionNotFound"),
    }
}

#[test]
fn self_dependency_terminates_with_one_cycle_report() {
    let m = Manifest {
        packages: vec![pkg("a", vec![entry("1.0", pv("/src/a", &["a-bin"], &["a"]))])],
    };
    let out = install_package(&m, InstalledDb::new(), "/store", "main", "a", None);
    assert!(out.status.is_ok());
    assert_eq!(count_cycles(&out.actions), 1);
    let mut found = false;
    for a in &out.actions {
        if let Action::CycleDetected { key } = a {
            assert_eq!(key, "a:1.0");
            found = true;
        }
    }
    assert!(found);
    assert!(out.db.get("a").is_some());
}

#[test]
fn two_cycle_terminates_and_installs_both() {
    let m = Manifest {
        packages: vec![
            pkg("a", vec![entry("1.0", pv("/src/a", &[], &["b"]))]),
            pkg("b", vec![entry("1.0", pv("/src/b", &[], &["a"]))]),
        ],
    };
    let out = install_package(&m, InstalledDb::new(), "/store", "main", "a", None);
    assert!(out.status.is_ok());
    assert_eq!(count_cycles(&out.actions), 1);
    assert!(out.db.get("a").is_some());
    assert!(out.db.get("b").is_some());
}

#[test]
fn diamond_dependency_installs_shared_node_once() {
    let m = Manifest {
        packages: vec![
            pkg("a", vec![entry("1.0", pv("/src/a", &[], &["b", "c"]))]),
            pkg("b", vec![entry("1.0", pv("/src/b", &[], &["d"]))]),
            pkg("c", vec![entry("1.0", pv("/src/c", &[], &["d"]))]),
            pkg("d", vec![entry("1.0", pv("/src/d", &["d-bin"], &[]))]),
        ],
    };
    let out = install_package(&m, InstalledDb::new(), "/store", "main", "a", None);
    assert!(out.status.is_ok());
    assert_eq!(count_cycles(&out.actions), 0);
    assert_eq!(count_copies(&out.actions, "/store/bins/d-bin"), 1);
    let mut d_records = 0;
    for e in list_installed(&out.db) {
        if e.name == "d" {
            d_records += 1;
        }
    }
    assert_eq!(d_records, 1);
    assert_eq!(list_installed(&out.db).len(), 4);
}

#[test]
fn reinstall_is_idempotent() {
    let m = Manifest {
        packages: vec![
            pkg("a", vec![entry("1.0", pv("/src/a", &["a-bin"], &["b"]))]),
            pkg("b", vec![entry("1.0", pv("/src/b", &[], &[]))]),
        ],
    };
    let first = install_package(&m, InstalledDb::new(), "/store", "main", "a", None);
    assert!(first.status.is_ok());
    let names_before: Vec<String> =
        list_installed(&first.db).iter().map(|e| e.name.clone()).collect();
    let second = install_package(&m, first.db, "/store", "main", "a", None);
    assert!(second.status.is_ok());
    let names_after: Vec<String> =
        list_installed(&second.db).iter().map(|e| e.name.clone()).collect();
    assert_eq!(names_before, names_after);
    let rec = second.db.get("a").unwrap();
    assert_eq!(rec.version, "1.0");
    assert_eq!(rec.binaries, vec!["/store/bins/a-bin".to_string()]);
}

#[test]
fn remove_hands_back_every_binary_and_drops_the_record() {
    let m = Manifest {
        packages: vec![pkg("a", vec![entry("1.0", pv("/src/a", &["x", "y"], &[]))])],
    };
    let out = install_package(&m, InstalledDb::new(), "/store", "main", "a", None);
    assert!(out.status.is_ok());
    let removed = remove_package(out.db, "a");
    let rec = removed.removed.expect("record should have been removed");
    assert_eq!(
        rec.binaries,
        vec!["/store/bins/x".to_string(), "/store/bins/y".to_string()]
    );
    assert!(removed.db.get("a").is_none());
    assert_eq!(list_installed(&removed.db).len(), 0);
}

#[test]
fn remove_of_not_installed_package_is_a_noop() {
    let removed = remove_package(InstalledDb::new(), "ghost");
    assert!(removed.removed.is_none());
    assert_eq!(list_installed(&removed.db).len(), 0);
}

#[test]
fn update_equals_remove_then_install_latest() {
    let m = Manifest {
        packages: vec![pkg(
            "a",
            vec![
                entry("1.0", pv("/src/a", &["a-bin"], &[])),
                entry("2.0", pv("/src/a", &["a-bin"], &[])),
            ],
        )],
    };
    let installed = install_package(&m, InstalledDb::new(), "/store", "main", "a", Some("1.0"));
    assert!(installed.status.is_ok());
    let installed_again = install_package(&m, InstalledDb::new(), "/store", "main", "a", Some("1.0"));
    assert!(installed_again.status.is_ok());

    let updated = update_package(&m, installed.db, "/store", "main", "a");
    assert!(updated.status.is_ok());
    assert_eq!(updated.removed.as_ref().unwrap().version, "1.0");

    let removed = remove_package(installed_again.db, "a");
    let composed = install_package(&m, removed.db, "/store", "main", "a", None);
    assert!(composed.status.is_ok());

    assert_eq!(updated.db.get("a").unwrap().version, "2.0");
    assert_eq!(composed.db.get("a").unwrap().version, "2.0");
    assert_eq!(
        updated.db.get("a").unwrap().binaries,
        composed.db.get("a").unwrap().binaries
    );
    assert_eq!(list_installed(&updated.db).len(), list_installed(&composed.db).len());
}

#[test]
fn installed_dependency_is_skipped_whatever_its_version() {
    let m = Manifest {
        packages: vec![
            pkg("a", vec![entry("1.0", pv("/src/a", &[], &["b:9.9"]))]),
            pkg("b", vec![entry("1.0", pv("/src/b", &[], &[]))]),
        ],
    };
    let pre = install_package(&m, InstalledDb::new(), "/store", "main", "b", None);
    assert!(pre.status.is_ok());
    let out = install_package(&m, pre.db, "/store", "main", "a", None);
    assert!(out.status.is_ok());
    let mut skipped = false;
    for a in &out.actions {
        if let Action::DependencyInstalled { name } = a {
            assert_eq!(name, "b");
            skipped = true;
        }
    }
    assert!(skipped);
    assert_eq!(out.db.get("b").unwrap().version, "1.0");
}

#[test]
fn copy_actions_use_source_path_and_flat_destination() {
    let m = Manifest {
        packages: vec![pkg(
            "a",
            vec![entry("1.0", pv("/src/pkg", &["dir/tool"], &[]))],
        )],
    };
    let out = install_package(&m, InstalledDb::new(), "/store", "main", "a", None);
    assert!(out.status.is_ok());
    let mut found_copy = false;
    let mut found_catalog = false;
    for a in &out.actions {
        match a {
            Action::CopyBinary { source, dest } => {
                assert_eq!(source, "/src/pkg/dir/tool");
                assert_eq!(dest, "/store/bins/tool");
                found_copy = true;
            }
            Action::CatalogBinary { name, dest } => {
                assert_eq!(name, "tool");
                assert_eq!(dest, "/store/bins/tool");
                found_catalog = true;
            }
            _ => {}
        }
    }
    assert!(found_copy && found_catalog);
    assert_eq!(
        out.db.get("a").unwrap().binaries,
        vec!["/store/bins/tool".to_string()]
    );
}

#[test]
fn missing_dependency_aborts_the_whole_install() {
    let m = Manifest {
        packages: vec![pkg("a", vec![entry("1.0", pv("/src/a", &[], &["ghost"]))])],
    };
    let out = install_package(&m, InstalledDb::new(), "/store", "main", "a", None);
    match out.status {
        Err(InstallError::PackageNotFound { package, .. }) => assert_eq!(package, "ghost"),
        _ => panic!("expected PackageNotFound for the dependency"),
    }
    assert!(out.db.get("a").is_none());
}

#[test]
fn parse_pkg_arg_splits_repo_package_version() {
    assert!(has_package_shape("main:tool"));
    let (repo, package, version) = parse_pkg_arg("main:tool");
    assert_eq!(repo, "main");
    assert_eq!(package, "tool");
    assert!(version.is_none());

    let (repo, package, version) = parse_pkg_arg("main:tool:1.2");
    assert_eq!(repo, "main");
    assert_eq!(package, "tool");
    assert_eq!(version.unwrap(), "1.2");
}

#[test]
fn parse_pkg_arg_ignores_segments_after_the_version() {
    let (repo, package, version) = parse_pkg_arg("r:p:v:extra");
    assert_eq!(repo, "r");
    assert_eq!(package, "p");
    assert_eq!(version.unwrap(), "v");
}

#[test]
fn has_package_shape_rejects_bare_names() {
    assert!(!has_package_shape("justapackage"));
    assert!(!has_package_shape(""));
}

#[test]
fn progress_marks_bracket_each_package() {
    let m = Manifest {
        packages: vec![pkg("a", vec![entry("1.0", pv("/src/a", &["x", "y"], &[]))])],
    };
    let out = install_package(&m, InstalledDb::new(), "/store", "main", "a", None);
    assert!(out.status.is_ok());
    assert_eq!(out.actions.len(), 6);
    assert!(matches!(&out.actions[0], Action::BeginPackage { package, total } if package == "a" && *total == 2));
    assert!(matches!(&out.actions[5], Action::FinishPackage { package } if package == "a"));
}
