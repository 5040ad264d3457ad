//! The manifest model: a repository describes packages, each with a set of
//! versions, and each version with a filesystem path, a list of binaries and a
//! list of dependency references. Version strings are opaque and compared
//! ordinally (lexicographically); "latest" means the ordinal maximum.

use vstd::prelude::*;

use crate::text::lex_lt;

verus! {

/// One version of one package: where its build artifacts live, which binaries
/// it installs, and which packages it depends on (each reference either a bare
/// name or `name:version`).
pub struct PackageVersion {
    pub path: String,
    pub binaries: Vec<String>,
    pub dependencies: Vec<String>,
}

pub struct PackageVersionView {
    pub path: Seq<char>,
    pub binaries: Seq<Seq<char>>,
    pub dependencies: Seq<Seq<char>>,
}

impl View for PackageVersion {
    type V = PackageVersionView;

    open spec fn view(&self) -> PackageVersionView {
        PackageVersionView {
            path: self.path@,
            binaries: self.binaries.deep_view(),
            dependencies: self.dependencies.deep_view(),
        }
    }
}

impl DeepView for PackageVersion {
    type V = PackageVersionView;

    open spec fn deep_view(&self) -> PackageVersionView {
        self.view()
    }
}

/// A version string paired with the package data it names.
pub struct VersionEntry {
    pub version: String,
    pub package: PackageVersion,
}

pub struct VersionEntryView {
    pub version: Seq<char>,
    pub package: PackageVersionView,
}

impl View for VersionEntry {
    type V = VersionEntryView;

    open spec fn view(&self) -> VersionEntryView {
        VersionEntryView { version: self.version@, package: self.package@ }
    }
}

impl DeepView for VersionEntry {
    type V = VersionEntryView;

    open spec fn deep_view(&self) -> VersionEntryView {
        self.view()
    }
}

/// A package name with its available versions.
pub struct PackageEntry {
    pub name: String,
    pub versions: Vec<VersionEntry>,
}

pub struct PackageEntryView {
    pub name: Seq<char>,
    pub versions: Seq<VersionEntryView>,
}

impl View for PackageEntry {
    type V = PackageEntryView;

    open spec fn view(&self) -> PackageEntryView {
        PackageEntryView { name: self.name@, versions: self.versions.deep_view() }
    }
}

impl DeepView for PackageEntry {
    type V = PackageEntryView;

    open spec fn deep_view(&self) -> PackageEntryView {
        self.view()
    }
}

/// A repository manifest: the packages it offers. Lookup is by name, first
/// match first; a manifest read from a well-formed document has one entry per
/// name.
pub struct Manifest {
    pub packages: Vec<PackageEntry>,
}

impl View for Manifest {
    type V = Seq<PackageEntryView>;

    open spec fn view(&self) -> Seq<PackageEntryView> {
        self.packages.deep_view()
    }
}

/// The versions listed for `name`, or `None` if the manifest does not mention
/// it.
pub open spec fn lookup_pkg(m: Seq<PackageEntryView>, name: Seq<char>) -> Option<
    Seq<VersionEntryView>,
>
    decreases m.len(),
{
    if m.len() == 0 {
        None
    } else if m[0].name == name {
        Some(m[0].versions)
    } else {
        lookup_pkg(m.drop_first(), name)
    }
}

/// The entry for version string `ver`, or `None` if absent.
pub open spec fn lookup_version(vs: Seq<VersionEntryView>, ver: Seq<char>) -> Option<
    VersionEntryView,
>
    decreases vs.len(),
{
    if vs.len() == 0 {
        None
    } else if vs[0].version == ver {
        Some(vs[0])
    } else {
        lookup_version(vs.drop_first(), ver)
    }
}

/// The ordinally maximum version string among `vs`; the empty string if `vs`
/// is empty.
pub open spec fn max_version(vs: Seq<VersionEntryView>) -> Seq<char>
    decreases vs.len(),
{
    if vs.len() == 0 {
        Seq::empty()
    } else if vs.len() == 1 {
        vs[0].version
    } else {
        let rest = max_version(vs.drop_last());
        if lex_lt(rest, vs.last().version) {
            vs.last().version
        } else {
            rest
        }
    }
}

/// The version the resolver works with: the requested one if any, else the
/// ordinal maximum of what the manifest offers.
pub open spec fn chosen_version(vs: Seq<VersionEntryView>, req: Option<Seq<char>>) -> Seq<char> {
    match req {
        Some(v) => v,
        None => max_version(vs),
    }
}

pub proof fn lemma_lex_lt_irrefl(a: Seq<char>)
    ensures
        !lex_lt(a, a),
    decreases a.len(),
{
    if a.len() > 0 {
        lemma_lex_lt_irrefl(a.drop_first());
    }
}

pub proof fn lemma_lex_lt_trans(a: Seq<char>, b: Seq<char>, c: Seq<char>)
    requires
        lex_lt(a, b),
        lex_lt(b, c),
    ensures
        lex_lt(a, c),
    decreases a.len(),
{
    if b.len() == 0 || c.len() == 0 {
    } else if a.len() == 0 {
    } else {
        if a[0] == b[0] && b[0] == c[0] {
            lemma_lex_lt_trans(a.drop_first(), b.drop_first(), c.drop_first());
        }
    }
}

/// The ordinal maximum of a non-empty version list is one of its version
/// strings, and no version string exceeds it.
pub proof fn lemma_max_version_greatest(vs: Seq<VersionEntryView>)
    requires
        vs.len() > 0,
    ensures
        exists|i: int| 0 <= i < vs.len() && vs[i].version == max_version(vs),
        forall|i: int| 0 <= i < vs.len() ==> !lex_lt(max_version(vs), vs[i].version),
    decreases vs.len(),
{
    if vs.len() == 1 {
        lemma_lex_lt_irrefl(vs[0].version);
        assert(vs[0].version == max_version(vs));
    } else {
        let rest = max_version(vs.drop_last());
        let last = vs.last().version;
        lemma_max_version_greatest(vs.drop_last());
        assert forall|i: int| 0 <= i < vs.len() implies !lex_lt(
            max_version(vs),
            vs[i].version,
        ) by {
            if lex_lt(rest, last) {
                if i == vs.len() - 1 {
                    lemma_lex_lt_irrefl(last);
                } else {
                    assert(vs.drop_last()[i] == vs[i]);
                    if lex_lt(last, vs[i].version) {
                        lemma_lex_lt_trans(rest, last, vs[i].version);
                    }
                }
            } else {
                if i < vs.len() - 1 {
                    assert(vs.drop_last()[i] == vs[i]);
                }
            }
        }
        let j = choose|j: int|
            0 <= j < vs.drop_last().len() && vs.drop_last()[j].version == rest;
        if !lex_lt(rest, last) {
            assert(vs[j].version == max_version(vs));
        } else {
            assert(vs[vs.len() - 1].version == max_version(vs));
        }
    }
}

proof fn lemma_lookup_pkg_index(m: Seq<PackageEntryView>, name: Seq<char>, i: int)
    requires
        0 <= i < m.len(),
        m[i].name == name,
        forall|j: int| 0 <= j < i ==> m[j].name != name,
    ensures
        lookup_pkg(m, name) == Some(m[i].versions),
    decreases m.len(),
{
    if i > 0 {
        assert(forall|j: int|
            0 <= j < i - 1 ==> m.drop_first()[j] == m[j + 1] && m[j + 1].name != name);
        lemma_lookup_pkg_index(m.drop_first(), name, i - 1);
    }
}

proof fn lemma_lookup_pkg_none(m: Seq<PackageEntryView>, name: Seq<char>)
    requires
        forall|j: int| 0 <= j < m.len() ==> m[j].name != name,
    ensures
        lookup_pkg(m, name) is None,
    decreases m.len(),
{
    if m.len() > 0 {
        assert(forall|j: int|
            0 <= j < m.len() - 1 ==> m.drop_first()[j] == m[j + 1] && m[j + 1].name != name);
        lemma_lookup_pkg_none(m.drop_first(), name);
    }
}

proof fn lemma_lookup_version_index(vs: Seq<VersionEntryView>, ver: Seq<char>, i: int)
    requires
        0 <= i < vs.len(),
        vs[i].version == ver,
        forall|j: int| 0 <= j < i ==> vs[j].version != ver,
    ensures
        lookup_version(vs, ver) == Some(vs[i]),
    decreases vs.len(),
{
    if i > 0 {
        assert(forall|j: int|
            0 <= j < i - 1 ==> vs.drop_first()[j] == vs[j + 1] && vs[j + 1].version != ver);
        lemma_lookup_version_index(vs.drop_first(), ver, i - 1);
    }
}

proof fn lemma_lookup_version_none(vs: Seq<VersionEntryView>, ver: Seq<char>)
    requires
        forall|j: int| 0 <= j < vs.len() ==> vs[j].version != ver,
    ensures
        lookup_version(vs, ver) is None,
    decreases vs.len(),
{
    if vs.len() > 0 {
        assert(forall|j: int|
            0 <= j < vs.len() - 1 ==> vs.drop_first()[j] == vs[j + 1] && vs[j + 1].version
                != ver);
        lemma_lookup_version_none(vs.drop_first(), ver);
    }
}

/// If a version entry is found for `ver`, its version string is `ver` itself.
pub proof fn lemma_lookup_version_found(vs: Seq<VersionEntryView>, ver: Seq<char>)
    requires
        lookup_version(vs, ver) is Some,
    ensures
        lookup_version(vs, ver)->Some_0.version == ver,
        exists|i: int| 0 <= i < vs.len() && vs[i] == lookup_version(vs, ver)->Some_0,
    decreases vs.len(),
{
    if vs.len() > 0 && vs[0].version != ver {
        lemma_lookup_version_found(vs.drop_first(), ver);
        let i = choose|i: int|
            0 <= i < vs.drop_first().len() && vs.drop_first()[i] == lookup_version(
                vs.drop_first(),
                ver,
            )->Some_0;
        assert(vs[i + 1] == lookup_version(vs, ver)->Some_0);
    }
}

impl Manifest {
    /// The versions the manifest lists for `name`, if it mentions the package.
    pub fn find_package(&self, name: &str) -> (r: Option<&Vec<VersionEntry>>)
        ensures
            match r {
                Some(vs) => lookup_pkg(self@, name@) == Some(vs.deep_view()),
                None => lookup_pkg(self@, name@) is None,
            },
    {
        let n = self.packages.len();
        let mut i: usize = 0;
        while i < n
            invariant
                0 <= i <= n,
                n == self.packages.len(),
                forall|j: int| 0 <= j < i ==> self@[j].name != name@,
            decreases n - i,
        {
            if crate::text::str_eq(self.packages[i].name.as_str(), name) {
                proof {
                    lemma_lookup_pkg_index(self@, name@, i as int);
                }
                return Some(&self.packages[i].versions);
            }
            i = i + 1;
        }
        proof {
            lemma_lookup_pkg_none(self@, name@);
        }
        None
    }
}

/// The ordinally maximum version string among `vs`; the empty string if `vs`
/// lists no versions.
pub fn latest_version(vs: &Vec<VersionEntry>) -> (r: String)
    ensures
        r@ == max_version(vs.deep_view()),
{
    if vs.len() == 0 {
        let empty = String::new();
        proof {
            assert(empty@ =~= max_version(vs.deep_view()));
        }
        empty
    } else {
        let ghost dv = vs.deep_view();
        let mut best = vs[0].version.clone();
        let mut i: usize = 1;
        proof {
            assert(dv.take(1).len() == 1);
            assert(dv.take(1)[0] == dv[0]);
        }
        while i < vs.len()
            invariant
                1 <= i <= vs.len(),
                dv == vs.deep_view(),
                best@ == max_version(dv.take(i as int)),
            decreases vs.len() - i,
        {
            proof {
                assert(dv.take(i as int + 1).drop_last() =~= dv.take(i as int));
                assert(dv.take(i as int + 1).last() == dv[i as int]);
            }
            if crate::text::str_lt(best.as_str(), vs[i].version.as_str()) {
                best = vs[i].version.clone();
            }
            i = i + 1;
        }
        proof {
            assert(dv.take(vs.len() as int) =~= dv);
        }
        best
    }
}

/// Resolve the version to work with: the requested string if one was given,
/// else the ordinal maximum among `vs`; and the entry carrying that string, if
/// any.
pub fn resolve_version<'a>(vs: &'a Vec<VersionEntry>, req: Option<&str>) -> (r: (
    String,
    Option<&'a VersionEntry>,
))
    ensures
        r.0@ == chosen_version(vs.deep_view(), match req {
            Some(v) => Some(v@),
            None => None,
        }),
        match r.1 {
            Some(e) => lookup_version(vs.deep_view(), r.0@) == Some(e@),
            None => lookup_version(vs.deep_view(), r.0@) is None,
        },
{
    let chosen: String = match req {
        Some(v) => v.to_owned(),
        None => latest_version(vs),
    };
    let n = vs.len();
    let mut i: usize = 0;
    while i < n
        invariant
            0 <= i <= n,
            n == vs.len(),
            chosen@ == chosen_version(vs.deep_view(), match req {
                Some(v) => Some(v@),
                None => None,
            }),
            forall|j: int| 0 <= j < i ==> vs.deep_view()[j].version != chosen@,
        decreases n - i,
    {
        if crate::text::str_eq(vs[i].version.as_str(), chosen.as_str()) {
            proof {
                lemma_lookup_version_index(vs.deep_view(), chosen@, i as int);
            }
            return (chosen, Some(&vs[i]));
        }
        i = i + 1;
    }
    proof {
        lemma_lookup_version_none(vs.deep_view(), chosen@);
    }
    (chosen, None)
}

} // verus!
