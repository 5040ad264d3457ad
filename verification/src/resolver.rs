//! The dependency-resolving installer: a recursive, depth-first, pre-order
//! walk of a package's dependency graph. Every dependency is installed before
//! the package itself; a `package:version` node that is re-entered while still
//! in progress is a cycle and truncates only that branch; a missing package or
//! version aborts the whole operation. The walk is pure: it returns the new
//! installed state together with the ordered list of `Action`s (binary copies,
//! catalog records, progress marks, reports) for the caller to perform.

use vstd::prelude::*;

use crate::manifest::{
    chosen_version, lookup_pkg, lookup_version, resolve_version, Manifest, PackageEntryView,
    PackageVersionView,
};
use crate::state::{
    db_contains, db_insert, db_lookup, InstalledDb, InstalledEntryView, InstalledRecord,
    InstalledRecordView,
};
use crate::text::{file_name, split_colon};

verus! {

/// A failure that makes a package's definition unresolvable; it aborts the
/// whole install operation.
pub enum InstallError {
    PackageNotFound { package: String, repo: String },
    VersionNotFound { package: String, version: String },
}

pub enum InstallErrorView {
    PackageNotFound { package: Seq<char>, repo: Seq<char> },
    VersionNotFound { package: Seq<char>, version: Seq<char> },
}

impl View for InstallError {
    type V = InstallErrorView;

    open spec fn view(&self) -> InstallErrorView {
        match self {
            InstallError::PackageNotFound { package, repo } => InstallErrorView::PackageNotFound {
                package: package@,
                repo: repo@,
            },
            InstallError::VersionNotFound { package, version } =>
                InstallErrorView::VersionNotFound { package: package@, version: version@ },
        }
    }
}

/// One step the caller must perform (copies, catalog records) or report
/// (progress marks, skips, cycles), in order.
pub enum Action {
    /// A dependency is about to be installed.
    InstallDependency { name: String },
    /// A dependency was already installed and is skipped.
    DependencyInstalled { name: String },
    /// A `package:version` node was re-entered while in progress; the branch
    /// is truncated.
    CycleDetected { key: String },
    /// Installation of a package's own binaries begins.
    BeginPackage { package: String, total: usize },
    /// Copy a binary from its source into the shared binary directory.
    CopyBinary { source: String, dest: String },
    /// Record the copied binary with the catalog sink.
    CatalogBinary { name: String, dest: String },
    /// Installation of a package finished.
    FinishPackage { package: String },
}

pub enum ActionView {
    InstallDependency { name: Seq<char> },
    DependencyInstalled { name: Seq<char> },
    CycleDetected { key: Seq<char> },
    BeginPackage { package: Seq<char>, total: int },
    CopyBinary { source: Seq<char>, dest: Seq<char> },
    CatalogBinary { name: Seq<char>, dest: Seq<char> },
    FinishPackage { package: Seq<char> },
}

impl View for Action {
    type V = ActionView;

    open spec fn view(&self) -> ActionView {
        match self {
            Action::InstallDependency { name } => ActionView::InstallDependency { name: name@ },
            Action::DependencyInstalled { name } => ActionView::DependencyInstalled {
                name: name@,
            },
            Action::CycleDetected { key } => ActionView::CycleDetected { key: key@ },
            Action::BeginPackage { package, total } => ActionView::BeginPackage {
                package: package@,
                total: *total as int,
            },
            Action::CopyBinary { source, dest } => ActionView::CopyBinary {
                source: source@,
                dest: dest@,
            },
            Action::CatalogBinary { name, dest } => ActionView::CatalogBinary {
                name: name@,
                dest: dest@,
            },
            Action::FinishPackage { package } => ActionView::FinishPackage { package: package@ },
        }
    }
}

impl DeepView for Action {
    type V = ActionView;

    open spec fn deep_view(&self) -> ActionView {
        self.view()
    }
}

/// A dependency reference, split into its package name and optional version:
/// the first two `':'`-separated segments, or the whole reference and no
/// version when it has no `':'`.
pub open spec fn parse_dep(d: Seq<char>) -> (Seq<char>, Option<Seq<char>>) {
    let parts = split_colon(d);
    if parts.len() >= 2 {
        (parts[0], Some(parts[1]))
    } else {
        (d, None)
    }
}

/// The view of an optional version request.
pub open spec fn opt_view(v: Option<&str>) -> Option<Seq<char>> {
    match v {
        Some(s) => Some(s@),
        None => None,
    }
}

/// The visited-set key of a `package:version` node.
pub open spec fn node_key(package: Seq<char>, version: Seq<char>) -> Seq<char> {
    package + ":"@ + version
}

/// Where a binary is copied from: the package's path joined with the binary's
/// relative name.
pub open spec fn source_path(path: Seq<char>, bin: Seq<char>) -> Seq<char> {
    path + "/"@ + bin
}

/// Where a binary lands: the shared binary directory under the store root,
/// flat-namespaced by file name.
pub open spec fn dest_path(store_root: Seq<char>, bin: Seq<char>) -> Seq<char> {
    store_root + "/bins/"@ + file_name(bin)
}

/// The destination paths of a package's binaries, in order.
pub open spec fn dest_paths(store_root: Seq<char>, bins: Seq<Seq<char>>) -> Seq<Seq<char>> {
    bins.map_values(|b: Seq<char>| dest_path(store_root, b))
}

/// The copy and catalog actions for a package's binaries, in order.
pub open spec fn bin_actions(
    store_root: Seq<char>,
    path: Seq<char>,
    bins: Seq<Seq<char>>,
) -> Seq<ActionView>
    decreases bins.len(),
{
    if bins.len() == 0 {
        Seq::empty()
    } else {
        bin_actions(store_root, path, bins.drop_last()) + seq![
            ActionView::CopyBinary {
                source: source_path(path, bins.last()),
                dest: dest_path(store_root, bins.last()),
            },
            ActionView::CatalogBinary {
                name: file_name(bins.last()),
                dest: dest_path(store_root, bins.last()),
            },
        ]
    }
}

/// Everything a package's own installation performs, after its dependencies.
pub open spec fn package_actions(
    store_root: Seq<char>,
    package: Seq<char>,
    pv: PackageVersionView,
) -> Seq<ActionView> {
    seq![ActionView::BeginPackage { package, total: pv.binaries.len() as int }] + bin_actions(
        store_root,
        pv.path,
        pv.binaries,
    ) + seq![ActionView::FinishPackage { package }]
}

/// The keys of the `package:version` nodes that `versions` offers for `name`.
pub open spec fn version_keys(name: Seq<char>, vs: Seq<crate::manifest::VersionEntryView>) -> Set<
    Seq<char>,
>
    decreases vs.len(),
{
    if vs.len() == 0 {
        Set::empty()
    } else {
        version_keys(name, vs.drop_first()).insert(node_key(name, vs[0].version))
    }
}

/// The keys of every `package:version` node a manifest offers: the space the
/// visited set lives in.
pub open spec fn key_space(m: Seq<PackageEntryView>) -> Set<Seq<char>>
    decreases m.len(),
{
    if m.len() == 0 {
        Set::empty()
    } else {
        key_space(m.drop_first()).union(version_keys(m[0].name, m[0].versions))
    }
}

proof fn lemma_version_keys_finite(name: Seq<char>, vs: Seq<crate::manifest::VersionEntryView>)
    ensures
        version_keys(name, vs).finite(),
    decreases vs.len(),
{
    if vs.len() > 0 {
        lemma_version_keys_finite(name, vs.drop_first());
    }
}

pub proof fn lemma_key_space_finite(m: Seq<PackageEntryView>)
    ensures
        key_space(m).finite(),
    decreases m.len(),
{
    if m.len() > 0 {
        lemma_key_space_finite(m.drop_first());
        lemma_version_keys_finite(m[0].name, m[0].versions);
    }
}

proof fn lemma_version_keys_contains(
    name: Seq<char>,
    vs: Seq<crate::manifest::VersionEntryView>,
    ver: Seq<char>,
)
    requires
        lookup_version(vs, ver) is Some,
    ensures
        version_keys(name, vs).contains(node_key(name, ver)),
    decreases vs.len(),
{
    if vs.len() > 0 && vs[0].version != ver {
        lemma_version_keys_contains(name, vs.drop_first(), ver);
    }
}

pub proof fn lemma_key_space_contains(m: Seq<PackageEntryView>, package: Seq<char>, ver: Seq<char>)
    requires
        lookup_pkg(m, package) is Some,
        lookup_version(lookup_pkg(m, package)->Some_0, ver) is Some,
    ensures
        key_space(m).contains(node_key(package, ver)),
    decreases m.len(),
{
    if m.len() > 0 {
        if m[0].name == package {
            lemma_version_keys_contains(package, m[0].versions, ver);
        } else {
            lemma_key_space_contains(m.drop_first(), package, ver);
        }
    }
}

/// How much of the manifest's node space the current walk has not yet entered:
/// the termination measure of the resolver.
pub open spec fn visited_measure(m: Seq<PackageEntryView>, visited: Seq<Seq<char>>) -> int {
    key_space(m).difference(visited.to_set()).len() as int
}

/// Entering a fresh node of the manifest strictly shrinks the unvisited space.
pub proof fn lemma_measure_decreases(
    m: Seq<PackageEntryView>,
    visited: Seq<Seq<char>>,
    package: Seq<char>,
    ver: Seq<char>,
)
    requires
        lookup_pkg(m, package) is Some,
        lookup_version(lookup_pkg(m, package)->Some_0, ver) is Some,
        !visited.contains(node_key(package, ver)),
    ensures
        visited_measure(m, visited.push(node_key(package, ver))) < visited_measure(m, visited),
{
    let key = node_key(package, ver);
    lemma_key_space_finite(m);
    lemma_key_space_contains(m, package, ver);
    visited.lemma_push_to_set_commute(key);
    assert(!visited.to_set().contains(key));
    key_space(m).lemma_set_insert_diff_decreases(visited.to_set(), key);
    assert(visited.push(key).to_set() =~= visited.to_set().insert(key));
}

/// What one resolver step leaves behind: the installed state, the ordered
/// actions, and whether a hard error aborted the walk.
pub struct ResolveOutcome {
    pub db: Seq<InstalledEntryView>,
    pub actions: Seq<ActionView>,
    pub err: Option<InstallErrorView>,
}

/// The meaning of installing one `package` (with an optional requested
/// version) into `db`, with `visited` the keys of the nodes still in progress.
pub open spec fn spec_install_node(
    m: Seq<PackageEntryView>,
    db: Seq<InstalledEntryView>,
    visited: Seq<Seq<char>>,
    store_root: Seq<char>,
    repo: Seq<char>,
    package: Seq<char>,
    req: Option<Seq<char>>,
) -> ResolveOutcome
    decreases visited_measure(m, visited), 0int,
{
    match lookup_pkg(m, package) {
        None => ResolveOutcome {
            db,
            actions: Seq::empty(),
            err: Some(InstallErrorView::PackageNotFound { package, repo }),
        },
        Some(vs) => {
            let chosen = chosen_version(vs, req);
            match lookup_version(vs, chosen) {
                None => ResolveOutcome {
                    db,
                    actions: Seq::empty(),
                    err: Some(InstallErrorView::VersionNotFound { package, version: chosen }),
                },
                Some(entry) => {
                    let key = node_key(package, chosen);
                    if visited.contains(key) {
                        ResolveOutcome {
                            db,
                            actions: seq![ActionView::CycleDetected { key }],
                            err: None,
                        }
                    } else {
                        proof {
                            lemma_measure_decreases(m, visited, package, chosen);
                        }
                        let deps = spec_install_deps(
                            m,
                            db,
                            visited.push(key),
                            store_root,
                            repo,
                            entry.package.dependencies,
                            0,
                        );
                        if deps.err is Some {
                            deps
                        } else {
                            ResolveOutcome {
                                db: db_insert(
                                    deps.db,
                                    package,
                                    InstalledRecordView {
                                        repo,
                                        version: chosen,
                                        binaries: dest_paths(store_root, entry.package.binaries),
                                    },
                                ),
                                actions: deps.actions + package_actions(
                                    store_root,
                                    package,
                                    entry.package,
                                ),
                                err: None,
                            }
                        }
                    }
                }
            }
        },
    }
}

/// The meaning of installing, in order, the dependency references
/// `deps[i..]`: a reference whose package name is already installed (whatever
/// its version) is skipped; any other is installed as a node of its own.
pub open spec fn spec_install_deps(
    m: Seq<PackageEntryView>,
    db: Seq<InstalledEntryView>,
    visited: Seq<Seq<char>>,
    store_root: Seq<char>,
    repo: Seq<char>,
    deps: Seq<Seq<char>>,
    i: int,
) -> ResolveOutcome
    decreases visited_measure(m, visited), deps.len() - i + 1,
{
    if i < 0 || i >= deps.len() {
        ResolveOutcome { db, actions: Seq::empty(), err: None }
    } else {
        let (dep_name, dep_req) = parse_dep(deps[i]);
        if db_contains(db, dep_name) {
            let rest = spec_install_deps(m, db, visited, store_root, repo, deps, i + 1);
            ResolveOutcome {
                db: rest.db,
                actions: seq![ActionView::DependencyInstalled { name: dep_name }] + rest.actions,
                err: rest.err,
            }
        } else {
            let node = spec_install_node(m, db, visited, store_root, repo, dep_name, dep_req);
            if node.err is Some {
                ResolveOutcome {
                    db: node.db,
                    actions: seq![ActionView::InstallDependency { name: dep_name }] + node.actions,
                    err: node.err,
                }
            } else {
                let rest = spec_install_deps(m, node.db, visited, store_root, repo, deps, i + 1);
                ResolveOutcome {
                    db: rest.db,
                    actions: seq![ActionView::InstallDependency { name: dep_name }] + node.actions
                        + rest.actions,
                    err: rest.err,
                }
            }
        }
    }
}

} // verus!

verus! {

/// What an install operation leaves behind: the new installed state, the
/// ordered actions for the caller to perform, and whether a hard error
/// aborted the walk (the state then reflects what completed before the
/// abort).
pub struct InstallOutcome {
    pub db: InstalledDb,
    pub actions: Vec<Action>,
    pub status: Result<(), InstallError>,
}

fn push_action(actions: &mut Vec<Action>, a: Action)
    ensures
        final(actions).deep_view() == old(actions).deep_view().push(a@),
{
    let ghost pre = actions.deep_view();
    let ghost av = a@;
    actions.push(a);
    proof {
        assert forall|j: int| 0 <= j < actions.deep_view().len() implies actions.deep_view()[j]
            == pre.push(av)[j] by {
            if j < pre.len() {
                assert(actions@[j] == old(actions)@[j]);
            }
        }
        assert(actions.deep_view() =~= pre.push(av));
    }
}

/// Whether `key` is among the visited keys.
fn visited_contains(visited: &Vec<String>, key: &str) -> (r: bool)
    ensures
        r == visited.deep_view().contains(key@),
{
    let n = visited.len();
    let mut i: usize = 0;
    while i < n
        invariant
            0 <= i <= n,
            n == visited.len(),
            forall|j: int| 0 <= j < i ==> visited.deep_view()[j] != key@,
        decreases n - i,
    {
        if crate::text::str_eq(visited[i].as_str(), key) {
            proof {
                assert(visited.deep_view()[i as int] == key@);
            }
            return true;
        }
        i = i + 1;
    }
    proof {
        assert(visited.deep_view().len() == n);
        assert(!visited.deep_view().contains(key@));
    }
    false
}

/// Emit the copy and catalog actions for a package's binaries and return the
/// destination paths they were copied to, in order.
#[verifier::loop_isolation(false)]
fn emit_bin_actions(store_root: &str, path: &str, binaries: &Vec<String>, actions: &mut Vec<
    Action,
>) -> (dests: Vec<String>)
    ensures
        final(actions).deep_view() == old(actions).deep_view() + bin_actions(
            store_root@,
            path@,
            binaries.deep_view(),
        ),
        dests.deep_view() == dest_paths(store_root@, binaries.deep_view()),
{
    let ghost a0 = actions.deep_view();
    let ghost bv = binaries.deep_view();
    let mut dests: Vec<String> = Vec::new();
    let mut i: usize = 0;
    proof {
        assert(bv.take(0) =~= Seq::<Seq<char>>::empty());
        assert(actions.deep_view() =~= a0 + bin_actions(store_root@, path@, bv.take(0)));
        assert(dests.deep_view() =~= dest_paths(store_root@, bv.take(0)));
    }
    while i < binaries.len()
        invariant
            0 <= i <= binaries.len(),
            actions.deep_view() == a0 + bin_actions(store_root@, path@, bv.take(i as int)),
            dests.deep_view() == dest_paths(store_root@, bv.take(i as int)),
        decreases binaries.len() - i,
    {
        let bin = &binaries[i];
        let mut src = path.to_owned();
        src.append("/");
        src.append(bin.as_str());
        let fname = crate::text::file_part(bin.as_str());
        let mut dest = store_root.to_owned();
        dest.append("/bins/");
        dest.append(fname.as_str());
        proof {
            assert(bin@ == bv[i as int]);
            assert(src@ =~= source_path(path@, bv[i as int]));
            assert(dest@ =~= dest_path(store_root@, bv[i as int]));
        }
        let ghost dpre = dests.deep_view();
        push_action(actions, Action::CopyBinary { source: src, dest: dest.clone() });
        push_action(actions, Action::CatalogBinary { name: fname, dest: dest.clone() });
        dests.push(dest);
        proof {
            assert forall|j: int| 0 <= j < dests.deep_view().len() implies dests.deep_view()[j]
                == dpre.push(dest_path(store_root@, bv[i as int]))[j] by {
                if j < dpre.len() {
                    assert(dests.deep_view()[j] == dpre[j]);
                }
            }
            assert(dests.deep_view() =~= dpre.push(dest_path(store_root@, bv[i as int])));
            assert(bv.take(i + 1).drop_last() =~= bv.take(i as int));
            assert(bv.take(i + 1).last() == bv[i as int]);
            assert(actions.deep_view() =~= a0 + bin_actions(store_root@, path@, bv.take(i + 1)));
            assert(dests.deep_view() =~= dest_paths(store_root@, bv.take(i + 1)));
        }
        i = i + 1;
    }
    proof {
        assert(bv.take(binaries.len() as int) =~= bv);
    }
    dests
}

/// Install one node of the dependency graph: resolve `package` in the
/// manifest, choose its version, install its dependencies first (skipping
/// ones already installed and truncating cyclic branches), then copy its
/// binaries and write its installed record.
#[verifier::loop_isolation(false)]
fn install_node(
    m: &Manifest,
    store_root: &str,
    repo_name: &str,
    package: &str,
    version: Option<&str>,
    db: &mut InstalledDb,
    visited: &mut Vec<String>,
    actions: &mut Vec<Action>,
) -> (r: Result<(), InstallError>)
    ensures
        ({
            let o = spec_install_node(
                m@,
                old(db)@,
                old(visited).deep_view(),
                store_root@,
                repo_name@,
                package@,
                opt_view(version),
            );
            &&& final(db)@ == o.db
            &&& final(actions).deep_view() == old(actions).deep_view() + o.actions
            &&& match r {
                Ok(_) => o.err is None && final(visited).deep_view() == old(
                    visited,
                ).deep_view(),
                Err(e) => o.err == Some(e@),
            }
        }),
    decreases visited_measure(m@, visited.deep_view()),
{
    let ghost mv = m@;
    let ghost db0 = old(db)@;
    let ghost a0 = old(actions).deep_view();
    let ghost v0 = old(visited).deep_view();
    let ghost o = spec_install_node(
        mv,
        db0,
        v0,
        store_root@,
        repo_name@,
        package@,
        opt_view(version),
    );
    let versions = match m.find_package(package) {
        None => {
            proof {
                assert(actions.deep_view() =~= a0 + o.actions);
            }
            return Err(
                InstallError::PackageNotFound {
                    package: package.to_owned(),
                    repo: repo_name.to_owned(),
                },
            );
        },
        Some(versions) => versions,
    };
    let (chosen, entry) = resolve_version(versions, version);
    let entry = match entry {
        None => {
            proof {
                assert(actions.deep_view() =~= a0 + o.actions);
            }
            return Err(
                InstallError::VersionNotFound { package: package.to_owned(), version: chosen },
            );
        },
        Some(entry) => entry,
    };
    let mut key = package.to_owned();
    key.append(":");
    key.append(chosen.as_str());
    let ghost key_v = key@;
    proof {
        assert(key_v =~= node_key(package@, chosen@));
    }
    if visited_contains(visited, key.as_str()) {
        push_action(actions, Action::CycleDetected { key });
        proof {
            assert(actions.deep_view() =~= a0 + o.actions);
        }
        return Ok(());
    }
    visited.push(key);
    let ghost v1 = visited.deep_view();
    proof {
        assert forall|j: int| 0 <= j < v1.len() implies v1[j] == v0.push(key_v)[j] by {
            if j < v0.len() {
                assert(visited@[j] == old(visited)@[j]);
            }
        }
        assert(v1 =~= v0.push(key_v));
        lemma_measure_decreases(mv, v0, package@, chosen@);
    }
    let ghost depsv = entry.package.dependencies.deep_view();
    let ghost o_deps = spec_install_deps(mv, db0, v1, store_root@, repo_name@, depsv, 0);
    let deps = &entry.package.dependencies;
    let n = deps.len();
    let mut i: usize = 0;
    while i < n
        invariant
            0 <= i <= n,
            visited.deep_view() == v1,
            spec_install_deps(mv, db@, v1, store_root@, repo_name@, depsv, i as int).db
                == o_deps.db,
            spec_install_deps(mv, db@, v1, store_root@, repo_name@, depsv, i as int).err
                == o_deps.err,
            actions.deep_view() + spec_install_deps(
                mv,
                db@,
                v1,
                store_root@,
                repo_name@,
                depsv,
                i as int,
            ).actions == a0 + o_deps.actions,
        decreases n - i,
    {
        let ghost rem = spec_install_deps(mv, db@, v1, store_root@, repo_name@, depsv, i as int);
        let dep = &deps[i];
        let parts = crate::text::split_colons(dep.as_str());
        let (dep_name, dep_req): (String, Option<String>) = if parts.len() >= 2 {
            (parts[0].clone(), Some(parts[1].clone()))
        } else {
            (dep.clone(), None)
        };
        proof {
            assert(dep@ == depsv[i as int]);
            assert(dep_name@ == parse_dep(depsv[i as int]).0);
            assert((match dep_req {
                Some(v) => Some(v@),
                None => None,
            }) == parse_dep(depsv[i as int]).1);
        }
        if db.contains(dep_name.as_str()) {
            let ghost apre = actions.deep_view();
            push_action(actions, Action::DependencyInstalled { name: dep_name });
            proof {
                let rest = spec_install_deps(
                    mv,
                    db@,
                    v1,
                    store_root@,
                    repo_name@,
                    depsv,
                    i as int + 1,
                );
                assert(rem.actions =~= seq![
                    ActionView::DependencyInstalled { name: parse_dep(depsv[i as int]).0 },
                ] + rest.actions);
                assert(actions.deep_view() + rest.actions =~= apre + rem.actions);
            }
        } else {
            let ghost apre = actions.deep_view();
            push_action(actions, Action::InstallDependency { name: dep_name.clone() });
            let dep_version: Option<&str> = match &dep_req {
                Some(v) => Some(v.as_str()),
                None => None,
            };
            let ghost dbpre = db@;
            let ghost node_o = spec_install_node(
                mv,
                dbpre,
                v1,
                store_root@,
                repo_name@,
                parse_dep(depsv[i as int]).0,
                parse_dep(depsv[i as int]).1,
            );
            proof {
                lemma_measure_decreases(mv, v0, package@, chosen@);
            }
            let res = install_node(
                m,
                store_root,
                repo_name,
                dep_name.as_str(),
                dep_version,
                db,
                visited,
                actions,
            );
            if let Err(e) = res {
                proof {
                    assert(rem.db == node_o.db);
                    assert(rem.err == node_o.err);
                    assert(rem.actions =~= seq![
                        ActionView::InstallDependency { name: parse_dep(depsv[i as int]).0 },
                    ] + node_o.actions);
                    assert(actions.deep_view() =~= apre + seq![
                        ActionView::InstallDependency { name: parse_dep(depsv[i as int]).0 },
                    ] + node_o.actions);
                    assert(actions.deep_view() =~= a0 + o_deps.actions);
                    assert(o.db == o_deps.db);
                    assert(o.err == o_deps.err);
                    assert(o.actions == o_deps.actions);
                }
                return Err(e);
            }
            proof {
                let rest = spec_install_deps(
                    mv,
                    db@,
                    v1,
                    store_root@,
                    repo_name@,
                    depsv,
                    i as int + 1,
                );
                assert(rem.db == rest.db);
                assert(rem.err == rest.err);
                assert(rem.actions =~= seq![
                    ActionView::InstallDependency { name: parse_dep(depsv[i as int]).0 },
                ] + node_o.actions + rest.actions);
                assert(actions.deep_view() =~= apre + seq![
                    ActionView::InstallDependency { name: parse_dep(depsv[i as int]).0 },
                ] + node_o.actions);
                assert(actions.deep_view() + rest.actions =~= apre + rem.actions);
            }
        }
        i = i + 1;
    }
    proof {
        let done = spec_install_deps(mv, db@, v1, store_root@, repo_name@, depsv, n as int);
        assert(done.db == db@);
        assert(done.actions =~= Seq::<ActionView>::empty());
        assert(actions.deep_view() =~= a0 + o_deps.actions);
        assert(o_deps.err is None);
        assert(o_deps.db == db@);
    }
    let ghost a_deps = actions.deep_view();
    push_action(
        actions,
        Action::BeginPackage { package: package.to_owned(), total: entry.package.binaries.len() },
    );
    let dests = emit_bin_actions(store_root, entry.package.path.as_str(), &entry.package.binaries, actions);
    push_action(actions, Action::FinishPackage { package: package.to_owned() });
    proof {
        assert(actions.deep_view() =~= a_deps + package_actions(
            store_root@,
            package@,
            entry@.package,
        ));
        assert(actions.deep_view() =~= a0 + o.actions);
    }
    let record = InstalledRecord {
        repo: repo_name.to_owned(),
        version: chosen,
        binaries: dests,
    };
    proof {
        assert(record@.binaries == dest_paths(store_root@, entry@.package.binaries));
    }
    db.insert(package.to_owned(), record);
    let _popped = visited.pop();
    proof {
        assert forall|j: int| 0 <= j < visited.deep_view().len() implies visited.deep_view()[j]
            == v0[j] by {
            assert(v1[j] == v0[j]);
        }
        assert(visited.deep_view() =~= v0);
        assert(db@ == o.db);
    }
    Ok(())
}

/// Install `package` from `repo_name` into the store rooted at `store_root`:
/// all of its transitive dependencies first, then the package itself. The
/// returned outcome holds the new installed state, the ordered actions to
/// perform, and the error that aborted the walk, if any; a missing requested
/// package or version leaves the state untouched.
pub fn install_package(
    m: &Manifest,
    db: InstalledDb,
    store_root: &str,
    repo_name: &str,
    package: &str,
    version: Option<&str>,
) -> (r: InstallOutcome)
    ensures
        ({
            let o = spec_install_node(
                m@,
                db@,
                Seq::empty(),
                store_root@,
                repo_name@,
                package@,
                opt_view(version),
            );
            &&& r.db@ == o.db
            &&& r.actions.deep_view() == o.actions
            &&& match r.status {
                Ok(_) => o.err is None,
                Err(e) => o.err == Some(e@),
            }
        }),
        lookup_pkg(m@, package@) is None ==> r.db@ == db@ && r.actions.deep_view()
            == Seq::<ActionView>::empty() && (r.status matches Err(e) && e@
            == InstallErrorView::PackageNotFound { package: package@, repo: repo_name@ }),
        lookup_pkg(m@, package@) is Some && lookup_version(
            lookup_pkg(m@, package@)->Some_0,
            chosen_version(lookup_pkg(m@, package@)->Some_0, opt_view(version)),
        ) is None ==> r.db@ == db@ && r.actions.deep_view() == Seq::<ActionView>::empty() && (
        r.status matches Err(e) && e@ == InstallErrorView::VersionNotFound {
            package: package@,
            version: chosen_version(lookup_pkg(m@, package@)->Some_0, opt_view(version)),
        }),
{
    let mut db = db;
    let ghost dbv0 = db@;
    let mut visited: Vec<String> = Vec::new();
    let mut actions: Vec<Action> = Vec::new();
    proof {
        assert(visited.deep_view() =~= Seq::<Seq<char>>::empty());
        assert(actions.deep_view() =~= Seq::<ActionView>::empty());
    }
    let status = install_node(
        m,
        store_root,
        repo_name,
        package,
        version,
        &mut db,
        &mut visited,
        &mut actions,
    );
    proof {
        let o = spec_install_node(
            m@,
            dbv0,
            Seq::empty(),
            store_root@,
            repo_name@,
            package@,
            opt_view(version),
        );
        assert(Seq::<ActionView>::empty() + o.actions =~= o.actions);
    }
    InstallOutcome { db, actions, status }
}

} // verus!

use crate::state::{db_unique_names, lemma_db_insert_semantics};

verus! {

/// Re-entering a `package:version` node that is still in progress truncates
/// only that branch: exactly one cycle report naming the key, no change to
/// the installed state, and no error.
pub proof fn lemma_cycle_reentry(
    m: Seq<PackageEntryView>,
    db: Seq<InstalledEntryView>,
    visited: Seq<Seq<char>>,
    store_root: Seq<char>,
    repo: Seq<char>,
    package: Seq<char>,
    req: Option<Seq<char>>,
)
    requires
        lookup_pkg(m, package) is Some,
        lookup_version(
            lookup_pkg(m, package)->Some_0,
            chosen_version(lookup_pkg(m, package)->Some_0, req),
        ) is Some,
        visited.contains(
            node_key(package, chosen_version(lookup_pkg(m, package)->Some_0, req)),
        ),
    ensures
        ({
            let o = spec_install_node(m, db, visited, store_root, repo, package, req);
            let key = node_key(package, chosen_version(lookup_pkg(m, package)->Some_0, req));
            &&& o.db == db
            &&& o.err is None
            &&& o.actions == seq![ActionView::CycleDetected { key }]
        }),
{
}

/// Installing a node keeps installed names unique and never uninstalls
/// anything; and unless the walk failed, or was truncated right here as a
/// cycle, it leaves the requested package installed.
pub proof fn lemma_install_node_preserves(
    m: Seq<PackageEntryView>,
    db: Seq<InstalledEntryView>,
    visited: Seq<Seq<char>>,
    store_root: Seq<char>,
    repo: Seq<char>,
    package: Seq<char>,
    req: Option<Seq<char>>,
)
    requires
        db_unique_names(db),
    ensures
        ({
            let o = spec_install_node(m, db, visited, store_root, repo, package, req);
            &&& db_unique_names(o.db)
            &&& forall|n: Seq<char>| db_contains(db, n) ==> db_contains(o.db, n)
            &&& (o.err is None && lookup_pkg(m, package) is Some && !visited.contains(
                node_key(package, chosen_version(lookup_pkg(m, package)->Some_0, req)),
            ) ==> db_contains(o.db, package))
        }),
    decreases visited_measure(m, visited), 0int,
{
    let o = spec_install_node(m, db, visited, store_root, repo, package, req);
    match lookup_pkg(m, package) {
        None => {},
        Some(vs) => {
            let chosen = chosen_version(vs, req);
            match lookup_version(vs, chosen) {
                None => {},
                Some(entry) => {
                    let key = node_key(package, chosen);
                    if !visited.contains(key) {
                        lemma_measure_decreases(m, visited, package, chosen);
                        lemma_install_deps_preserves(
                            m,
                            db,
                            visited.push(key),
                            store_root,
                            repo,
                            entry.package.dependencies,
                            0,
                        );
                        let dres = spec_install_deps(
                            m,
                            db,
                            visited.push(key),
                            store_root,
                            repo,
                            entry.package.dependencies,
                            0,
                        );
                        if dres.err is None {
                            let rec = InstalledRecordView {
                                repo,
                                version: chosen,
                                binaries: dest_paths(store_root, entry.package.binaries),
                            };
                            lemma_db_insert_semantics(dres.db, package, rec);
                            assert forall|n: Seq<char>| db_contains(db, n) implies db_contains(
                                o.db,
                                n,
                            ) by {
                                assert(db_contains(dres.db, n));
                                if n != package {
                                    assert(db_lookup(o.db, n) == db_lookup(dres.db, n));
                                }
                            }
                        }
                    }
                },
            }
        },
    }
}

/// Installing a list of dependency references keeps installed names unique
/// and never uninstalls anything.
pub proof fn lemma_install_deps_preserves(
    m: Seq<PackageEntryView>,
    db: Seq<InstalledEntryView>,
    visited: Seq<Seq<char>>,
    store_root: Seq<char>,
    repo: Seq<char>,
    deps: Seq<Seq<char>>,
    i: int,
)
    requires
        db_unique_names(db),
    ensures
        ({
            let o = spec_install_deps(m, db, visited, store_root, repo, deps, i);
            &&& db_unique_names(o.db)
            &&& forall|n: Seq<char>| db_contains(db, n) ==> db_contains(o.db, n)
        }),
    decreases visited_measure(m, visited), deps.len() - i + 1,
{
    if 0 <= i < deps.len() {
        let (dep_name, dep_req) = parse_dep(deps[i]);
        if db_contains(db, dep_name) {
            lemma_install_deps_preserves(m, db, visited, store_root, repo, deps, i + 1);
        } else {
            lemma_install_node_preserves(m, db, visited, store_root, repo, dep_name, dep_req);
            let node = spec_install_node(m, db, visited, store_root, repo, dep_name, dep_req);
            if node.err is None {
                lemma_install_deps_preserves(m, node.db, visited, store_root, repo, deps, i + 1);
            }
        }
    }
}

} // verus!

use crate::state::lemma_db_insert_twice;
use crate::text::colon_free;

verus! {

/// With colon-free package names, a `package:version` key determines both the
/// name and the version.
proof fn lemma_node_key_injective(p1: Seq<char>, v1: Seq<char>, p2: Seq<char>, v2: Seq<char>)
    requires
        colon_free(p1),
        colon_free(p2),
        node_key(p1, v1) == node_key(p2, v2),
    ensures
        p1 == p2,
        v1 == v2,
{
    reveal_strlit(":");
    let s1 = node_key(p1, v1);
    let s2 = node_key(p2, v2);
    assert(":"@.len() == 1);
    assert(":"@[0] == ':');
    assert(s1.len() == p1.len() + 1 + v1.len());
    assert(s2.len() == p2.len() + 1 + v2.len());
    if p1.len() < p2.len() {
        assert(s1[p1.len() as int] == (p1 + ":"@)[p1.len() as int]);
        assert(s1[p1.len() as int] == ':');
        assert(s2[p1.len() as int] == (p2 + ":"@)[p1.len() as int]);
        assert(s2[p1.len() as int] == p2[p1.len() as int]);
        assert(false);
    }
    if p2.len() < p1.len() {
        assert(s2[p2.len() as int] == ':');
        assert(s1[p2.len() as int] == p1[p2.len() as int]);
        assert(false);
    }
    assert forall|i: int| 0 <= i < p1.len() implies p1[i] == p2[i] by {
        assert(s1[i] == p1[i]);
        assert(s2[i] == p2[i]);
    }
    assert(p1 =~= p2);
    assert forall|i: int| 0 <= i < v1.len() implies v1[i] == v2[i] by {
        assert(s1[p1.len() + 1 + i] == v1[i]);
        assert(s2[p2.len() + 1 + i] == v2[i]);
    }
    assert(v1 =~= v2);
}

/// After a successful dependency walk at the top of an install (the visited
/// set holds just the requesting node's key), every dependency name that was
/// walked is installed — except the requesting package itself, whose
/// self-cycle is truncated, and which the requester installs afterwards.
pub proof fn lemma_deps_all_installed(
    m: Seq<PackageEntryView>,
    db: Seq<InstalledEntryView>,
    store_root: Seq<char>,
    repo: Seq<char>,
    package: Seq<char>,
    key: Seq<char>,
    deps: Seq<Seq<char>>,
    i: int,
)
    requires
        0 <= i,
        db_unique_names(db),
        colon_free(package),
        forall|j: int| 0 <= j < deps.len() ==> colon_free(#[trigger] parse_dep(deps[j]).0),
        exists|w: Seq<char>| key == node_key(package, w),
    ensures
        ({
            let o = spec_install_deps(m, db, seq![key], store_root, repo, deps, i);
            o.err is None ==> forall|j: int|
                i <= j < deps.len() ==> db_contains(o.db, #[trigger] parse_dep(deps[j]).0)
                    || parse_dep(deps[j]).0 == package
        }),
    decreases deps.len() - i,
{
    let v = seq![key];
    let o = spec_install_deps(m, db, v, store_root, repo, deps, i);
    if 0 <= i < deps.len() && o.err is None {
        let dn = parse_dep(deps[i]).0;
        let dr = parse_dep(deps[i]).1;
        if db_contains(db, dn) {
            let rest = spec_install_deps(m, db, v, store_root, repo, deps, i + 1);
            lemma_install_deps_preserves(m, db, v, store_root, repo, deps, i + 1);
            lemma_deps_all_installed(m, db, store_root, repo, package, key, deps, i + 1);
            assert forall|j: int| i <= j < deps.len() implies db_contains(
                o.db,
                #[trigger] parse_dep(deps[j]).0,
            ) || parse_dep(deps[j]).0 == package by {
                if j == i {
                    assert(db_contains(rest.db, dn));
                }
            }
        } else {
            let node = spec_install_node(m, db, v, store_root, repo, dn, dr);
            assert(node.err is None);
            assert(lookup_pkg(m, dn) is Some);
            let vs_d = lookup_pkg(m, dn)->Some_0;
            let cd = chosen_version(vs_d, dr);
            lemma_install_node_preserves(m, db, v, store_root, repo, dn, dr);
            let rest = spec_install_deps(m, node.db, v, store_root, repo, deps, i + 1);
            assert(rest.err is None);
            lemma_deps_all_installed(m, node.db, store_root, repo, package, key, deps, i + 1);
            lemma_install_deps_preserves(m, node.db, v, store_root, repo, deps, i + 1);
            if v.contains(node_key(dn, cd)) {
                assert(v[0] == node_key(dn, cd));
                let w = choose|w: Seq<char>| key == node_key(package, w);
                lemma_node_key_injective(dn, cd, package, w);
                assert(dn == package);
            } else {
                assert(db_contains(node.db, dn));
                assert(db_contains(rest.db, dn));
            }
            assert forall|j: int| i <= j < deps.len() implies db_contains(
                o.db,
                #[trigger] parse_dep(deps[j]).0,
            ) || parse_dep(deps[j]).0 == package by {}
        }
    }
}

/// A dependency walk over references whose names are all installed changes
/// nothing: every reference is skipped.
pub proof fn lemma_deps_skip_all(
    m: Seq<PackageEntryView>,
    db: Seq<InstalledEntryView>,
    visited: Seq<Seq<char>>,
    store_root: Seq<char>,
    repo: Seq<char>,
    deps: Seq<Seq<char>>,
    i: int,
)
    requires
        forall|j: int| i <= j < deps.len() ==> db_contains(db, #[trigger] parse_dep(deps[j]).0),
    ensures
        ({
            let o = spec_install_deps(m, db, visited, store_root, repo, deps, i);
            &&& o.db == db
            &&& o.err is None
        }),
    decreases deps.len() - i,
{
    if 0 <= i < deps.len() {
        lemma_deps_skip_all(m, db, visited, store_root, repo, deps, i + 1);
    }
}

/// The dependency references of the version an install of `package` resolves.
pub open spec fn resolved_dependencies(
    m: Seq<PackageEntryView>,
    package: Seq<char>,
    req: Option<Seq<char>>,
) -> Seq<Seq<char>> {
    match lookup_pkg(m, package) {
        Some(vs) => match lookup_version(vs, chosen_version(vs, req)) {
            Some(e) => e.package.dependencies,
            None => Seq::empty(),
        },
        None => Seq::empty(),
    }
}

/// Installing the same package twice in sequence leaves the installed state
/// exactly as one install leaves it: the second install overwrites the
/// record, it does not duplicate it. The package's name and its direct
/// dependencies' names must be colon-free, so that `package:version` keys are
/// unambiguous.
pub proof fn lemma_reinstall_idempotent(
    m: Seq<PackageEntryView>,
    db: Seq<InstalledEntryView>,
    store_root: Seq<char>,
    repo: Seq<char>,
    package: Seq<char>,
    req: Option<Seq<char>>,
)
    requires
        db_unique_names(db),
        colon_free(package),
        forall|j: int|
            0 <= j < resolved_dependencies(m, package, req).len() ==> colon_free(
                #[trigger] parse_dep(resolved_dependencies(m, package, req)[j]).0,
            ),
    ensures
        ({
            let once = spec_install_node(m, db, Seq::empty(), store_root, repo, package, req);
            let twice = spec_install_node(
                m,
                once.db,
                Seq::empty(),
                store_root,
                repo,
                package,
                req,
            );
            once.err is None ==> twice.db == once.db && twice.err is None
        }),
{
    let empty_v = Seq::<Seq<char>>::empty();
    let o1 = spec_install_node(m, db, empty_v, store_root, repo, package, req);
    if o1.err is None {
        assert(lookup_pkg(m, package) is Some);
        let vs = lookup_pkg(m, package)->Some_0;
        let c = chosen_version(vs, req);
        assert(lookup_version(vs, c) is Some);
        let e = lookup_version(vs, c)->Some_0;
        let key = node_key(package, c);
        assert(!empty_v.contains(key));
        assert(empty_v.push(key) =~= seq![key]);
        let deps = e.package.dependencies;
        assert(deps == resolved_dependencies(m, package, req));
        let d1 = spec_install_deps(m, db, seq![key], store_root, repo, deps, 0);
        assert(d1.err is None);
        let rec = InstalledRecordView {
            repo,
            version: c,
            binaries: dest_paths(store_root, e.package.binaries),
        };
        assert(o1.db == db_insert(d1.db, package, rec));
        lemma_install_deps_preserves(m, db, seq![key], store_root, repo, deps, 0);
        lemma_deps_all_installed(m, db, store_root, repo, package, key, deps, 0);
        lemma_db_insert_semantics(d1.db, package, rec);
        assert forall|j: int| 0 <= j < deps.len() implies db_contains(
            o1.db,
            #[trigger] parse_dep(deps[j]).0,
        ) by {
            let dn = parse_dep(deps[j]).0;
            if dn == package {
                assert(db_lookup(o1.db, package) == Some(rec));
            } else {
                assert(db_contains(d1.db, dn));
                assert(db_lookup(o1.db, dn) == db_lookup(d1.db, dn));
            }
        }
        let o2 = spec_install_node(m, o1.db, empty_v, store_root, repo, package, req);
        let d2 = spec_install_deps(m, o1.db, seq![key], store_root, repo, deps, 0);
        lemma_deps_skip_all(m, o1.db, seq![key], store_root, repo, deps, 0);
        assert(d2.db == o1.db);
        assert(o2.db == db_insert(o1.db, package, rec));
        lemma_db_insert_twice(d1.db, package, rec);
        assert(o2.db == o1.db);
        assert(o2.err is None);
    }
}

} // verus!

verus! {

/// Whether an action is the start of `name`'s own installation.
pub open spec fn is_begin_for(a: ActionView, name: Seq<char>) -> bool {
    match a {
        ActionView::BeginPackage { package, .. } => package == name,
        _ => false,
    }
}

proof fn lemma_bin_actions_no_begin(
    store_root: Seq<char>,
    path: Seq<char>,
    bins: Seq<Seq<char>>,
    name: Seq<char>,
)
    ensures
        forall|k: int|
            0 <= k < bin_actions(store_root, path, bins).len() ==> !is_begin_for(
                #[trigger] bin_actions(store_root, path, bins)[k],
                name,
            ),
    decreases bins.len(),
{
    if bins.len() > 0 {
        lemma_bin_actions_no_begin(store_root, path, bins.drop_last(), name);
        let out = bin_actions(store_root, path, bins);
        let inner = bin_actions(store_root, path, bins.drop_last());
        assert forall|k: int| 0 <= k < out.len() implies !is_begin_for(
            #[trigger] out[k],
            name,
        ) by {
            if k < inner.len() {
                assert(out[k] == inner[k]);
            }
        }
    }
}

/// A package that is already installed is never installed again by the same
/// walk: no action of a node installed for another package begins `name`'s
/// own installation, so its binaries are copied at most once per operation.
pub proof fn lemma_installed_never_reinstalled(
    m: Seq<PackageEntryView>,
    db: Seq<InstalledEntryView>,
    visited: Seq<Seq<char>>,
    store_root: Seq<char>,
    repo: Seq<char>,
    package: Seq<char>,
    req: Option<Seq<char>>,
    name: Seq<char>,
)
    requires
        db_unique_names(db),
        db_contains(db, name),
        package != name,
    ensures
        ({
            let o = spec_install_node(m, db, visited, store_root, repo, package, req);
            forall|k: int|
                0 <= k < o.actions.len() ==> !is_begin_for(#[trigger] o.actions[k], name)
        }),
    decreases visited_measure(m, visited), 0int,
{
    let o = spec_install_node(m, db, visited, store_root, repo, package, req);
    match lookup_pkg(m, package) {
        None => {},
        Some(vs) => {
            let chosen = chosen_version(vs, req);
            match lookup_version(vs, chosen) {
                None => {},
                Some(entry) => {
                    let key = node_key(package, chosen);
                    if !visited.contains(key) {
                        lemma_measure_decreases(m, visited, package, chosen);
                        let v2 = visited.push(key);
                        let dres = spec_install_deps(
                            m,
                            db,
                            v2,
                            store_root,
                            repo,
                            entry.package.dependencies,
                            0,
                        );
                        lemma_deps_never_reinstall(
                            m,
                            db,
                            v2,
                            store_root,
                            repo,
                            entry.package.dependencies,
                            0,
                            name,
                        );
                        if dres.err is None {
                            lemma_bin_actions_no_begin(
                                store_root,
                                entry.package.path,
                                entry.package.binaries,
                                name,
                            );
                            let pa = package_actions(store_root, package, entry.package);
                            assert forall|k: int| 0 <= k < o.actions.len() implies !is_begin_for(
                                #[trigger] o.actions[k],
                                name,
                            ) by {
                                if k < dres.actions.len() {
                                    assert(o.actions[k] == dres.actions[k]);
                                } else {
                                    assert(o.actions[k] == pa[k - dres.actions.len()]);
                                    let kk = k - dres.actions.len();
                                    if 0 < kk < pa.len() - 1 {
                                        assert(pa[kk] == bin_actions(
                                            store_root,
                                            entry.package.path,
                                            entry.package.binaries,
                                        )[kk - 1]);
                                    }
                                }
                            }
                        }
                    }
                },
            }
        },
    }
}

/// A dependency walk never begins the installation of a package that was
/// already installed when it started.
pub proof fn lemma_deps_never_reinstall(
    m: Seq<PackageEntryView>,
    db: Seq<InstalledEntryView>,
    visited: Seq<Seq<char>>,
    store_root: Seq<char>,
    repo: Seq<char>,
    deps: Seq<Seq<char>>,
    i: int,
    name: Seq<char>,
)
    requires
        db_unique_names(db),
        db_contains(db, name),
    ensures
        ({
            let o = spec_install_deps(m, db, visited, store_root, repo, deps, i);
            forall|k: int|
                0 <= k < o.actions.len() ==> !is_begin_for(#[trigger] o.actions[k], name)
        }),
    decreases visited_measure(m, visited), deps.len() - i + 1,
{
    let o = spec_install_deps(m, db, visited, store_root, repo, deps, i);
    if 0 <= i < deps.len() {
        let dep_name = parse_dep(deps[i]).0;
        let dep_req = parse_dep(deps[i]).1;
        if db_contains(db, dep_name) {
            lemma_deps_never_reinstall(m, db, visited, store_root, repo, deps, i + 1, name);
            let rest = spec_install_deps(m, db, visited, store_root, repo, deps, i + 1);
            assert forall|k: int| 0 <= k < o.actions.len() implies !is_begin_for(
                #[trigger] o.actions[k],
                name,
            ) by {
                if k > 0 {
                    assert(o.actions[k] == rest.actions[k - 1]);
                }
            }
        } else {
            assert(dep_name != name);
            lemma_installed_never_reinstalled(
                m,
                db,
                visited,
                store_root,
                repo,
                dep_name,
                dep_req,
                name,
            );
            lemma_install_node_preserves(m, db, visited, store_root, repo, dep_name, dep_req);
            let node = spec_install_node(m, db, visited, store_root, repo, dep_name, dep_req);
            if node.err is None {
                lemma_deps_never_reinstall(
                    m,
                    node.db,
                    visited,
                    store_root,
                    repo,
                    deps,
                    i + 1,
                    name,
                );
                let rest = spec_install_deps(m, node.db, visited, store_root, repo, deps, i + 1);
                assert forall|k: int| 0 <= k < o.actions.len() implies !is_begin_for(
                    #[trigger] o.actions[k],
                    name,
                ) by {
                    if 0 < k <= node.actions.len() {
                        assert(o.actions[k] == node.actions[k - 1]);
                    } else if k > node.actions.len() {
                        assert(o.actions[k] == rest.actions[k - 1 - node.actions.len()]);
                    }
                }
            } else {
                assert forall|k: int| 0 <= k < o.actions.len() implies !is_begin_for(
                    #[trigger] o.actions[k],
                    name,
                ) by {
                    if k > 0 {
                        assert(o.actions[k] == node.actions[k - 1]);
                    }
                }
            }
        }
    }
}

} // verus!
