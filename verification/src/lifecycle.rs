//! Lifecycle operations built atop the store and the resolver: remove (drop
//! the tracked record and hand back the binary paths to delete, best-effort)
//! and update (remove, then install the latest version).

use vstd::prelude::*;

use crate::manifest::Manifest;
use crate::resolver::{install_package, spec_install_node, Action, InstallError};
use crate::state::{db_lookup, db_remove, InstalledDb, InstalledEntry, InstalledRecord};

verus! {

/// What a removal leaves behind: the new installed state, and the record that
/// was dropped, if the package was installed at all (its `binaries` are the
/// paths whose deletion the caller should attempt, tolerating failures).
pub struct RemoveOutcome {
    pub db: InstalledDb,
    pub removed: Option<InstalledRecord>,
}

/// Remove `package` from the installed state. Removing a package that is not
/// installed is a no-op, not an error: the state is returned unchanged and
/// nothing is handed back for deletion.
pub fn remove_package(db: InstalledDb, package: &str) -> (r: RemoveOutcome)
    ensures
        r.db@ == db_remove(db@, package@),
        match r.removed {
            Some(rec) => db_lookup(db@, package@) == Some(rec@),
            None => db_lookup(db@, package@) is None,
        },
{
    let mut db = db;
    let removed = db.remove(package);
    RemoveOutcome { db, removed }
}

/// What an update leaves behind: the record the removal dropped (if any), and
/// the outcome of the reinstall.
pub struct UpdateOutcome {
    pub db: InstalledDb,
    pub removed: Option<InstalledRecord>,
    pub actions: Vec<Action>,
    pub status: Result<(), InstallError>,
}

/// Update `package`: exactly `remove_package` followed by `install_package`
/// with no version pinned, so the latest available version is installed.
pub fn update_package(
    m: &Manifest,
    db: InstalledDb,
    store_root: &str,
    repo_name: &str,
    package: &str,
) -> (r: UpdateOutcome)
    ensures
        ({
            let o = spec_install_node(
                m@,
                db_remove(db@, package@),
                Seq::empty(),
                store_root@,
                repo_name@,
                package@,
                None,
            );
            &&& r.db@ == o.db
            &&& r.actions.deep_view() == o.actions
            &&& match r.status {
                Ok(_) => o.err is None,
                Err(e) => o.err == Some(e@),
            }
            &&& match r.removed {
                Some(rec) => db_lookup(db@, package@) == Some(rec@),
                None => db_lookup(db@, package@) is None,
            }
        }),
{
    let rm = remove_package(db, package);
    let out = install_package(m, rm.db, store_root, repo_name, package, None);
    UpdateOutcome { db: out.db, removed: rm.removed, actions: out.actions, status: out.status }
}

/// The installed packages, in store order: each name with its record.
pub fn list_installed(db: &InstalledDb) -> (r: &Vec<InstalledEntry>)
    ensures
        r.deep_view() == db@,
{
    db.entries()
}

} // verus!
