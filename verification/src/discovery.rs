//! Service packages found below the search directories, indexed by their
//! exact name and version, and the digests of the files they consist of.

use crate::bytes;
use crate::manifest::Manifest;
use crate::manifest::Service;
use crate::path;
use crate::path::UnixPath;
use crate::sort;
use crate::sort::Ordered;
use crate::text;
use vstd::multiset::Multiset;
use vstd::prelude::*;

verus! {

/// A file in a service package and its SHA-256 content digest.
#[derive(Debug, PartialEq, Eq)]
pub struct ContentDigest {
    pub path: UnixPath,
    pub sha256: String,
}

/// A package hidden by an earlier package with the same name and version.
#[derive(Debug)]
pub struct ShadowedPackage {
    pub directory: UnixPath,
    pub files: Vec<ContentDigest>,
    pub manifest: Manifest,
}

/// The selected package for a name and version.
#[derive(Debug)]
pub struct DiscoveredPackage {
    pub manifest: Manifest,
    pub files: Vec<ContentDigest>,
    pub shadowed: Vec<ShadowedPackage>,
}

/// Services indexed by their exact name and version, in that order.
#[derive(Debug)]
pub struct ServiceIndex {
    pub packages: Vec<DiscoveredPackage>,
}

/// Why no service is selected.
#[derive(Debug)]
pub enum SelectError {
    /// No package has that name, or that name and version.
    NotFound,
    /// Several versions are installed and none was named.
    Ambiguous(Vec<String>),
}

/// The order of texts: that of their UTF-8 bytes.
pub open spec fn text_less(a: Seq<char>, b: Seq<char>) -> bool {
    bytes::less(vstd::utf8::encode_utf8(a), vstd::utf8::encode_utf8(b))
}

/// The order of services: by name, then by version.
pub open spec fn service_less(a: Service, b: Service) -> bool {
    text_less(a.name@, b.name@) || (a.name@ == b.name@ && text_less(a.version@, b.version@))
}

/// Whether two services have the same name and version.
pub open spec fn same_service(a: Service, b: Service) -> bool {
    a.name@ == b.name@ && a.version@ == b.version@
}

pub proof fn lemma_text_total(a: Seq<char>, b: Seq<char>)
    ensures
        a == b || text_less(a, b) || text_less(b, a),
{
    let x = vstd::utf8::encode_utf8(a);
    let y = vstd::utf8::encode_utf8(b);
    bytes::lemma_less_total(x, y);
    vstd::utf8::encode_utf8_decode_utf8(a);
    vstd::utf8::encode_utf8_decode_utf8(b);
}

pub proof fn lemma_text_transitive(a: Seq<char>, b: Seq<char>, c: Seq<char>)
    requires
        text_less(a, b),
        text_less(b, c),
    ensures
        text_less(a, c),
{
    bytes::lemma_less_transitive(
        vstd::utf8::encode_utf8(a),
        vstd::utf8::encode_utf8(b),
        vstd::utf8::encode_utf8(c),
    );
}

proof fn lemma_service_transitive(a: Service, b: Service, c: Service)
    requires
        service_less(a, b),
        service_less(b, c),
    ensures
        service_less(a, c),
{
    if text_less(a.name@, b.name@) && text_less(b.name@, c.name@) {
        lemma_text_transitive(a.name@, b.name@, c.name@);
    } else if a.name@ == b.name@ && b.name@ == c.name@ {
        lemma_text_transitive(a.version@, b.version@, c.version@);
    }
}

proof fn lemma_service_total(a: Service, b: Service)
    ensures
        same_service(a, b) || service_less(a, b) || service_less(b, a),
{
    lemma_text_total(a.name@, b.name@);
    lemma_text_total(a.version@, b.version@);
}

proof fn lemma_service_strict(a: Service, b: Service)
    requires
        service_less(a, b),
    ensures
        !same_service(a, b),
        !service_less(b, a),
{
    bytes::lemma_less_irreflexive(vstd::utf8::encode_utf8(a.name@));
    bytes::lemma_less_irreflexive(vstd::utf8::encode_utf8(a.version@));
    if service_less(b, a) {
        lemma_service_transitive(a, b, a);
    }
}

/// Whether `a` comes before `b`.
fn is_text_less(a: &String, b: &String) -> (r: bool)
    ensures
        r == text_less(a@, b@),
{
    bytes::is_less(a.as_str().as_bytes(), b.as_str().as_bytes())
}

fn is_service_less(a: &Service, b: &Service) -> (r: bool)
    ensures
        r == service_less(*a, *b),
{
    is_text_less(&a.name, &b.name) || (a.name == b.name && is_text_less(&a.version, &b.version))
}

impl ServiceIndex {
    /// The packages are in strict order of name and version: each occurs
    /// once.
    pub open spec fn valid(self) -> bool {
        forall|i: int, j: int|
            0 <= i < j < self.packages@.len() ==> service_less(
                (#[trigger] self.packages@[i]).manifest.service,
                (#[trigger] self.packages@[j]).manifest.service,
            )
    }

    /// An index of nothing.
    pub fn new() -> (r: Self)
        ensures
            r.valid(),
            r.packages@ == Seq::<DiscoveredPackage>::empty(),
    {
        ServiceIndex { packages: Vec::new() }
    }

    /// The selected packages in name and version order.
    pub fn iter(&self) -> (r: &[DiscoveredPackage])
        ensures
            r@ == self.packages@,
    {
        self.packages.as_slice()
    }

    /// Whether `after` is the index with a package added: selected where it
    /// is the first of its name and version, and shadowed by that first one
    /// otherwise.
    pub open spec fn adds(
        self,
        manifest: Manifest,
        files: Vec<ContentDigest>,
        after: ServiceIndex,
    ) -> bool {
        if exists|i: int|
            0 <= i < self.packages@.len() && same_service(
                (#[trigger] self.packages@[i]).manifest.service,
                manifest.service,
            ) {
            exists|i: int|
                {
                    let first = #[trigger] self.packages@[i];
                    let new = after.packages@[i];
                    &&& 0 <= i < self.packages@.len()
                    &&& same_service(first.manifest.service, manifest.service)
                    &&& after.packages@ == self.packages@.update(i, new)
                    &&& new.manifest == first.manifest
                    &&& new.files == first.files
                    &&& new.shadowed@.len() == first.shadowed@.len() + 1
                    &&& new.shadowed@.drop_last() == first.shadowed@
                    &&& new.shadowed@.last().directory@ == manifest.directory@
                    &&& new.shadowed@.last().files == files
                    &&& new.shadowed@.last().manifest == manifest
                }
        } else {
            exists|i: int|
                {
                    let new = #[trigger] after.packages@[i];
                    &&& 0 <= i <= self.packages@.len()
                    &&& after.packages@ == self.packages@.insert(i, new)
                    &&& new.manifest == manifest
                    &&& new.files == files
                    &&& new.shadowed@.len() == 0
                }
        }
    }

    /// Adds a package.
    pub fn insert(&mut self, manifest: Manifest, files: Vec<ContentDigest>)
        requires
            old(self).valid(),
        ensures
            final(self).valid(),
            old(self).adds(manifest, files, *final(self)),
    {
        let mut at: usize = 0;
        let ghost before = self.packages@;
        while at < self.packages.len() && is_service_less(
            &self.packages[at].manifest.service,
            &manifest.service,
        )
            invariant
                *self == *old(self),
                before == self.packages@,
                at <= before.len(),
                forall|j: int|
                    0 <= j < at ==> service_less(
                        (#[trigger] before[j]).manifest.service,
                        manifest.service,
                    ),
            decreases before.len() - at,
        {
            at = at + 1;
        }
        if at < self.packages.len() && self.packages[at].manifest.service.name
            == manifest.service.name && self.packages[at].manifest.service.version
            == manifest.service.version {
            let ghost kept = manifest;
            let ghost kept_files = files;
            let directory = manifest.directory.clone();
            self.packages[at].shadowed.push(ShadowedPackage { directory, files, manifest });
            proof {
                let first = before[at as int];
                let now = self.packages@[at as int];
                assert(same_service(first.manifest.service, kept.service));
                assert(self.packages@ =~= before.update(at as int, now));
                assert(now.shadowed@.drop_last() =~= first.shadowed@);
                assert(old(self).adds(kept, kept_files, *self));
            }
        } else {
            let ghost service = manifest.service;
            let ghost kept = manifest;
            proof {
                if at < before.len() {
                    lemma_service_total(before[at as int].manifest.service, service);
                }
                assert forall|j: int| at <= j < before.len() implies service_less(
                    service,
                    (#[trigger] before[j]).manifest.service,
                ) by {
                    if j > at {
                        lemma_service_transitive(
                            service,
                            before[at as int].manifest.service,
                            before[j].manifest.service,
                        );
                    }
                }
                assert forall|j: int| 0 <= j < before.len() implies !same_service(
                    (#[trigger] before[j]).manifest.service,
                    service,
                ) by {
                    if j < at {
                        lemma_service_strict(before[j].manifest.service, service);
                    } else {
                        lemma_service_strict(service, before[j].manifest.service);
                    }
                }
            }
            let package = DiscoveredPackage { manifest, files, shadowed: Vec::new() };
            self.packages.insert(at, package);
            proof {
                let now = self.packages@;
                assert(now =~= before.insert(at as int, now[at as int]));
                assert forall|i: int, j: int| 0 <= i < j < now.len() implies service_less(
                    (#[trigger] now[i]).manifest.service,
                    (#[trigger] now[j]).manifest.service,
                ) by {
                    let a = if i < at {
                        i
                    } else {
                        i - 1
                    };
                    let b = if j < at {
                        j
                    } else {
                        j - 1
                    };
                    if i != at {
                        assert(now[i] == before[a]);
                    }
                    if j != at {
                        assert(now[j] == before[b]);
                    }
                }
            }
        }
    }
}

/// Whether a package has the name and, where one is given, the version.
pub open spec fn is_wanted(
    package: DiscoveredPackage,
    name: Seq<char>,
    version: Option<Seq<char>>,
) -> bool {
    package.manifest.service.name@ == name && (version is None || version->0
        == package.manifest.service.version@)
}

/// The indices of the packages with the name and version, in order.
pub open spec fn wanted(
    packages: Seq<DiscoveredPackage>,
    name: Seq<char>,
    version: Option<Seq<char>>,
) -> Seq<int>
    decreases packages.len(),
{
    if packages.len() == 0 {
        Seq::empty()
    } else {
        let rest = wanted(packages.drop_last(), name, version);
        if is_wanted(packages.last(), name, version) {
            rest.push(packages.len() - 1)
        } else {
            rest
        }
    }
}

/// The versions of the packages at the indices.
pub open spec fn versions_at(packages: Seq<DiscoveredPackage>, at: Seq<int>) -> Seq<Seq<char>> {
    Seq::new(at.len(), |i: int| packages[at[i]].manifest.service.version@)
}

proof fn lemma_wanted(
    packages: Seq<DiscoveredPackage>,
    name: Seq<char>,
    version: Option<Seq<char>>,
)
    ensures
        forall|k: int|
            0 <= k < wanted(packages, name, version).len() ==> {
                let i = #[trigger] wanted(packages, name, version)[k];
                0 <= i < packages.len() && is_wanted(packages[i], name, version)
            },
        forall|j: int, k: int|
            0 <= j < k < wanted(packages, name, version).len() ==> #[trigger] wanted(
                packages,
                name,
                version,
            )[j] < #[trigger] wanted(packages, name, version)[k],
        forall|i: int|
            0 <= i < packages.len() && is_wanted(#[trigger] packages[i], name, version) ==> wanted(
                packages,
                name,
                version,
            ).contains(i),
    decreases packages.len(),
{
    if packages.len() > 0 {
        let shorter = packages.drop_last();
        lemma_wanted(shorter, name, version);
        let rest = wanted(shorter, name, version);
        let all = wanted(packages, name, version);
        assert forall|k: int| 0 <= k < all.len() implies {
            let i = #[trigger] all[k];
            0 <= i < packages.len() && is_wanted(packages[i], name, version)
        } by {
            if k < rest.len() {
                assert(all[k] == rest[k]);
                assert(shorter[rest[k]] == packages[rest[k]]);
            }
        }
        assert forall|j: int, k: int| 0 <= j < k < all.len() implies #[trigger] all[j]
            < #[trigger] all[k] by {
            assert(all[j] == rest[j]);
            if k < rest.len() {
                assert(all[k] == rest[k]);
            }
        }
        assert forall|i: int|
            0 <= i < packages.len() && is_wanted(#[trigger] packages[i], name, version) implies all
            .contains(i) by {
            if i < shorter.len() {
                assert(shorter[i] == packages[i]);
                assert(rest.contains(i));
                let k = choose|k: int| 0 <= k < rest.len() && rest[k] == i;
                assert(all[k] == i);
            } else {
                assert(all.last() == i);
            }
        }
    }
}

/// The packages that a package shadows, with their directories.
pub open spec fn shadows(package: DiscoveredPackage) -> Seq<(Manifest, Seq<u8>)> {
    Seq::new(
        package.shadowed@.len(),
        |i: int| (package.shadowed@[i].manifest, package.shadowed@[i].directory@),
    )
}

/// What is selected of an index: the package with the name and version; where
/// no version is named, the only installed one.
pub open spec fn selected(
    packages: Seq<DiscoveredPackage>,
    name: Seq<char>,
    version: Option<Seq<char>>,
) -> Option<int> {
    let found = wanted(packages, name, version);
    if found.len() == 1 {
        Some(found[0])
    } else {
        None
    }
}

impl ServiceIndex {
    /// Selects a service by name and, where one is named, by version. A name
    /// alone selects the only installed version.
    pub fn select(&self, name: &str, version: Option<&str>) -> (r: Result<&Manifest, SelectError>)
        ensures
            ({
                let version = match version {
                    Some(version) => Some(version@),
                    None => None,
                };
                let found = wanted(self.packages@, name@, version);
                match r {
                    Ok(manifest) => selected(self.packages@, name@, version) is Some && *manifest
                        == self.packages@[selected(
                        self.packages@,
                        name@,
                        version,
                    )->0].manifest,
                    Err(SelectError::NotFound) => found.len() == 0,
                    Err(SelectError::Ambiguous(versions)) => found.len() > 1 && text::texts(
                        versions@,
                    ) == versions_at(self.packages@, found),
                }
            }),
    {
        let ghost version_view = match version {
            Some(version) => Some(version@),
            None => None,
        };
        let ghost all = self.packages@;
        let mut found: Vec<usize> = Vec::new();
        let ghost mut indices: Seq<int> = Seq::empty();
        let mut i: usize = 0;
        while i < self.packages.len()
            invariant
                i <= all.len(),
                all == self.packages@,
                version_view == match version {
                    Some(version) => Some(version@),
                    None => None,
                },
                indices == wanted(all.take(i as int), name@, version_view),
                found@.len() == indices.len(),
                forall|k: int|
                    0 <= k < found@.len() ==> #[trigger] found@[k] == indices[k] && found@[k] < i,
            decreases all.len() - i,
        {
            proof {
                assert(all.take(i + 1).drop_last() =~= all.take(i as int));
            }
            let service = &self.packages[i].manifest.service;
            let same_version: bool = match version {
                Some(version) => text::same_text(service.version.as_str(), version),
                None => true,
            };
            if same_version && text::same_text(service.name.as_str(), name) {
                found.push(i);
                proof {
                    indices = indices.push(i as int);
                }
            }
            i = i + 1;
        }
        proof {
            assert(all.take(all.len() as int) =~= all);
        }
        if found.len() == 0 {
            return Err(SelectError::NotFound);
        }
        if found.len() == 1 {
            let at: usize = found[0];
            proof {
                assert(indices[0] == at);
            }
            return Ok(&self.packages[at].manifest);
        }
        let mut versions: Vec<String> = Vec::new();
        let ghost wanted_versions = versions_at(all, indices);
        let mut k: usize = 0;
        while k < found.len()
            invariant
                k <= found@.len(),
                all == self.packages@,
                found@.len() == indices.len(),
                forall|k: int|
                    0 <= k < found@.len() ==> #[trigger] found@[k] == indices[k] && found@[k]
                        < all.len(),
                wanted_versions == versions_at(all, indices),
                text::texts(versions@) == wanted_versions.take(k as int),
            decreases found@.len() - k,
        {
            let ghost before = text::texts(versions@);
            versions.push(self.packages[found[k]].manifest.service.version.clone());
            proof {
                assert(found@[k as int] == indices[k as int]);
                assert(text::texts(versions@) =~= before.push(wanted_versions[k as int]));
                assert(wanted_versions.take(k + 1) =~= wanted_versions.take(k as int).push(
                    wanted_versions[k as int],
                ));
            }
            k = k + 1;
        }
        proof {
            assert(wanted_versions.take(k as int) =~= wanted_versions);
        }
        Err(SelectError::Ambiguous(versions))
    }

    /// The packages with their directories, each selected one followed by
    /// those it shadows.
    pub open spec fn everything(packages: Seq<DiscoveredPackage>) -> Seq<(Manifest, Seq<u8>)>
        decreases packages.len(),
    {
        if packages.len() == 0 {
            Seq::empty()
        } else {
            let last = packages.last();
            Self::everything(packages.drop_last()) + seq![(last.manifest, last.manifest.directory@)]
                + shadows(last)
        }
    }

    /// Every selected and shadowed package, with its directory.
    pub fn all_packages(&self) -> (r: Vec<(&Manifest, &UnixPath)>)
        ensures
            Seq::new(r@.len(), |i: int| (*r@[i].0, r@[i].1@)) == Self::everything(self.packages@),
    {
        let mut r: Vec<(&Manifest, &UnixPath)> = Vec::new();
        let ghost mut seen: Seq<(Manifest, Seq<u8>)> = Seq::empty();
        let ghost all = self.packages@;
        let mut i: usize = 0;
        while i < self.packages.len()
            invariant
                i <= all.len(),
                all == self.packages@,
                seen == Self::everything(all.take(i as int)),
                r@.len() == seen.len(),
                forall|k: int|
                    0 <= k < seen.len() ==> *(#[trigger] r@[k]).0 == seen[k].0 && r@[k].1@
                        == seen[k].1,
            decreases all.len() - i,
        {
            let package = &self.packages[i];
            proof {
                assert(all.take(i + 1).drop_last() =~= all.take(i as int));
            }
            r.push((&package.manifest, &package.manifest.directory));
            let ghost start = seen.push((package.manifest, package.manifest.directory@));
            let ghost hidden = shadows(*package);
            let mut j: usize = 0;
            while j < package.shadowed.len()
                invariant
                    j <= package.shadowed@.len(),
                    hidden == shadows(*package),
                    r@.len() == start.len() + j,
                    forall|k: int|
                        0 <= k < start.len() ==> *(#[trigger] r@[k]).0 == start[k].0 && r@[k].1@
                            == start[k].1,
                    forall|k: int|
                        start.len() <= k < r@.len() ==> *(#[trigger] r@[k]).0 == hidden[k
                            - start.len()].0 && r@[k].1@ == hidden[k - start.len()].1,
                decreases package.shadowed@.len() - j,
            {
                r.push((&package.shadowed[j].manifest, &package.shadowed[j].directory));
                j = j + 1;
            }
            proof {
                assert(seen + seq![(package.manifest, package.manifest.directory@)] =~= start);
                seen = start + hidden;
            }
            i = i + 1;
        }
        proof {
            assert(all.take(all.len() as int) =~= all);
            assert(Seq::new(r@.len(), |i: int| (*r@[i].0, r@[i].1@)) =~= seen);
        }
        r
    }
}

/// The packages found for a service, in the order in which they were found.
pub open spec fn found_for(
    found: Seq<(Manifest, Vec<ContentDigest>)>,
    service: Service,
) -> Seq<(Manifest, Vec<ContentDigest>)>
    decreases found.len(),
{
    if found.len() == 0 {
        Seq::empty()
    } else {
        let rest = found_for(found.drop_last(), service);
        if same_service(found.last().0.service, service) {
            rest.push(found.last())
        } else {
            rest
        }
    }
}

/// Whether a package of an index stands for what was found of its service: the
/// first is selected, the later ones are shadowed, in order.
pub open spec fn stands_for(
    package: DiscoveredPackage,
    found: Seq<(Manifest, Vec<ContentDigest>)>,
) -> bool {
    &&& found.len() == package.shadowed@.len() + 1
    &&& package.manifest == found[0].0
    &&& package.files == found[0].1
    &&& forall|j: int|
        0 <= j < package.shadowed@.len() ==> {
            let shadow = #[trigger] package.shadowed@[j];
            &&& shadow.manifest == found[j + 1].0
            &&& shadow.files == found[j + 1].1
            &&& shadow.directory@ == found[j + 1].0.directory@
        }
}

/// Whether packages are an index of what was found: every service that was
/// found has a package, and every package stands for what was found of its
/// service.
pub open spec fn indexes(
    packages: Seq<DiscoveredPackage>,
    found: Seq<(Manifest, Vec<ContentDigest>)>,
) -> bool {
    &&& forall|k: int|
        0 <= k < found.len() ==> exists|i: int|
            0 <= i < packages.len() && same_service(
                (#[trigger] packages[i]).manifest.service,
                (#[trigger] found[k]).0.service,
            )
    &&& forall|i: int|
        0 <= i < packages.len() ==> stands_for(
            #[trigger] packages[i],
            found_for(found, packages[i].manifest.service),
        )
}

/// Nothing is found for a service that no package found has.
proof fn lemma_nothing_found(found: Seq<(Manifest, Vec<ContentDigest>)>, service: Service)
    requires
        forall|k: int|
            0 <= k < found.len() ==> !same_service((#[trigger] found[k]).0.service, service),
    ensures
        found_for(found, service).len() == 0,
    decreases found.len(),
{
    if found.len() > 0 {
        let rest = found.drop_last();
        assert forall|k: int| 0 <= k < rest.len() implies !same_service(
            (#[trigger] rest[k]).0.service,
            service,
        ) by {
            assert(rest[k] == found[k]);
        }
        assert(found[found.len() - 1] == found.last());
        lemma_nothing_found(rest, service);
    }
}

/// Adding a package that was found keeps an index one of what was found.
proof fn lemma_indexes(
    index: ServiceIndex,
    after: ServiceIndex,
    found: Seq<(Manifest, Vec<ContentDigest>)>,
    manifest: Manifest,
    files: Vec<ContentDigest>,
)
    requires
        index.valid(),
        after.valid(),
        indexes(index.packages@, found),
        index.adds(manifest, files, after),
    ensures
        indexes(after.packages@, found.push((manifest, files))),
{
    let before = index.packages@;
    let now = after.packages@;
    let all = found.push((manifest, files));
    assert(all.drop_last() =~= found);
    assert(all.last() == (manifest, files));
    let known = exists|i: int|
        0 <= i < before.len() && same_service(
            (#[trigger] before[i]).manifest.service,
            manifest.service,
        );
    if known {
        let at = choose|i: int|
            {
                let first = #[trigger] before[i];
                let new = now[i];
                &&& 0 <= i < before.len()
                &&& same_service(first.manifest.service, manifest.service)
                &&& now == before.update(i, new)
                &&& new.manifest == first.manifest
                &&& new.files == first.files
                &&& new.shadowed@.len() == first.shadowed@.len() + 1
                &&& new.shadowed@.drop_last() == first.shadowed@
                &&& new.shadowed@.last().directory@ == manifest.directory@
                &&& new.shadowed@.last().files == files
                &&& new.shadowed@.last().manifest == manifest
            };
        assert forall|k: int| 0 <= k < all.len() implies exists|i: int|
            0 <= i < now.len() && same_service(
                (#[trigger] now[i]).manifest.service,
                (#[trigger] all[k]).0.service,
            ) by {
            if k < found.len() {
                assert(all[k] == found[k]);
                let i = choose|i: int|
                    0 <= i < before.len() && same_service(
                        (#[trigger] before[i]).manifest.service,
                        found[k].0.service,
                    );
                assert(now[i].manifest == before[i].manifest);
            } else {
                assert(now[at].manifest == before[at].manifest);
            }
        }
        assert forall|i: int| 0 <= i < now.len() implies stands_for(
            #[trigger] now[i],
            found_for(all, now[i].manifest.service),
        ) by {
            let service = before[i].manifest.service;
            let of = found_for(found, service);
            assert(now[i].manifest == before[i].manifest);
            assert(stands_for(before[i], of));
            if i == at {
                assert(found_for(all, service) == of.push((manifest, files)));
                let first = before[i].shadowed@;
                let new = now[i].shadowed@;
                assert forall|j: int| 0 <= j < new.len() implies {
                    let shadow = #[trigger] new[j];
                    let origin = of.push((manifest, files))[j + 1];
                    &&& shadow.manifest == origin.0
                    &&& shadow.files == origin.1
                    &&& shadow.directory@ == origin.0.directory@
                } by {
                    if j < first.len() {
                        assert(new.drop_last()[j] == new[j]);
                        assert(first[j] == new[j]);
                    } else {
                        assert(new[j] == new.last());
                    }
                }
            } else {
                if same_service(manifest.service, service) {
                    if i < at {
                        lemma_service_strict(service, before[at].manifest.service);
                    } else {
                        lemma_service_strict(before[at].manifest.service, service);
                    }
                }
                assert(found_for(all, service) == of);
            }
        }
    } else {
        let at = choose|i: int|
            {
                let new = #[trigger] now[i];
                &&& 0 <= i <= before.len()
                &&& now == before.insert(i, new)
                &&& new.manifest == manifest
                &&& new.files == files
                &&& new.shadowed@.len() == 0
            };
        assert forall|k: int| 0 <= k < all.len() implies exists|i: int|
            0 <= i < now.len() && same_service(
                (#[trigger] now[i]).manifest.service,
                (#[trigger] all[k]).0.service,
            ) by {
            if k < found.len() {
                assert(all[k] == found[k]);
                let i = choose|i: int|
                    0 <= i < before.len() && same_service(
                        (#[trigger] before[i]).manifest.service,
                        found[k].0.service,
                    );
                let moved = if i < at {
                    i
                } else {
                    i + 1
                };
                assert(now[moved] == before[i]);
            } else {
                assert(same_service(now[at].manifest.service, all[k].0.service));
            }
        }
        assert forall|i: int| 0 <= i < now.len() implies stands_for(
            #[trigger] now[i],
            found_for(all, now[i].manifest.service),
        ) by {
            if i == at {
                assert forall|k: int| 0 <= k < found.len() implies !same_service(
                    (#[trigger] found[k]).0.service,
                    manifest.service,
                ) by {
                    let i = choose|i: int|
                        0 <= i < before.len() && same_service(
                            (#[trigger] before[i]).manifest.service,
                            found[k].0.service,
                        );
                    assert(!same_service(before[i].manifest.service, manifest.service));
                }
                lemma_nothing_found(found, manifest.service);
                assert(found_for(all, manifest.service) =~= seq![(manifest, files)]);
            } else {
                let origin = if i < at {
                    i
                } else {
                    i - 1
                };
                assert(now[i] == before[origin]);
                assert(!same_service(before[origin].manifest.service, manifest.service));
                assert(found_for(all, now[i].manifest.service) == found_for(
                    found,
                    before[origin].manifest.service,
                ));
            }
        }
    }
}

impl ServiceIndex {
    /// An index of the packages found below the search directories, in the
    /// order of those directories and of the packages in them. The first
    /// package for an exact name and version is selected, and later packages
    /// are recorded as shadowed.
    pub fn discover(found: Vec<(Manifest, Vec<ContentDigest>)>) -> (r: Self)
        ensures
            r.valid(),
            indexes(r.packages@, found@),
    {
        let mut index = ServiceIndex::new();
        let ghost all = found@;
        let mut rest = found;
        let ghost mut done: int = 0;
        proof {
            assert(all.skip(0) =~= all);
            assert(all.take(0) =~= Seq::empty());
        }
        while rest.len() > 0
            invariant
                0 <= done <= all.len(),
                rest@ == all.skip(done),
                index.valid(),
                indexes(index.packages@, all.take(done)),
            decreases rest@.len(),
        {
            let (manifest, files) = rest.remove(0);
            let ghost before = index;
            let ghost added = (manifest, files);
            index.insert(manifest, files);
            proof {
                assert(added == all[done]);
                lemma_indexes(before, index, all.take(done), added.0, added.1);
                assert(all.take(done + 1) =~= all.take(done).push(added));
                assert(rest@ =~= all.skip(done + 1));
                done = done + 1;
            }
        }
        proof {
            assert(all.take(done) =~= all);
        }
        index
    }
}

/// The first package of a name and version wins: adding another leaves
/// selected what was selected before.
pub proof fn law_the_first_package_wins(
    index: ServiceIndex,
    manifest: Manifest,
    files: Vec<ContentDigest>,
    after: ServiceIndex,
    name: Seq<char>,
    version: Seq<char>,
)
    requires
        index.valid(),
        after.valid(),
        index.adds(manifest, files, after),
        selected(index.packages@, name, Some(version)) is Some,
    ensures
        selected(after.packages@, name, Some(version)) is Some,
        after.packages@[selected(after.packages@, name, Some(version))->0].manifest
            == index.packages@[selected(index.packages@, name, Some(version))->0].manifest,
{
    let at = selected(index.packages@, name, Some(version))->0;
    lemma_wanted(index.packages@, name, Some(version));
    lemma_wanted(after.packages@, name, Some(version));
    assert(wanted(index.packages@, name, Some(version))[0] == at);
    let package = index.packages@[at];
    let now = if exists|i: int|
        0 <= i < index.packages@.len() && same_service(
            (#[trigger] index.packages@[i]).manifest.service,
            manifest.service,
        ) {
        at
    } else {
        let i = choose|i: int|
            {
                let new = #[trigger] after.packages@[i];
                &&& 0 <= i <= index.packages@.len()
                &&& after.packages@ == index.packages@.insert(i, new)
                &&& new.manifest == manifest
                &&& new.files == files
                &&& new.shadowed@.len() == 0
            };
        if at < i {
            at
        } else {
            at + 1
        }
    };
    assert(after.packages@[now].manifest == package.manifest);
    assert(is_wanted(after.packages@[now], name, Some(version)));
    law_a_version_is_not_ambiguous(after, name, version);
    let found = wanted(after.packages@, name, Some(version));
    assert(found.contains(now));
    assert(found[0] == now);
}

/// A name together with a version is never ambiguous.
pub proof fn law_a_version_is_not_ambiguous(
    index: ServiceIndex,
    name: Seq<char>,
    version: Seq<char>,
)
    requires
        index.valid(),
    ensures
        wanted(index.packages@, name, Some(version)).len() <= 1,
{
    lemma_wanted(index.packages@, name, Some(version));
    let found = wanted(index.packages@, name, Some(version));
    if found.len() > 1 {
        let i = found[0];
        let j = found[1];
        assert(i < j);
        assert(service_less(
            index.packages@[i].manifest.service,
            index.packages@[j].manifest.service,
        ));
        lemma_service_strict(
            index.packages@[i].manifest.service,
            index.packages@[j].manifest.service,
        );
    }
}

/// What a directory entry is.
#[derive(Clone, Copy, Debug, PartialEq, Eq, Structural)]
pub enum EntryKind {
    Directory,
    File,
    Symlink,
    Other,
}

/// An entry of a directory.
#[derive(Debug)]
pub struct Entry {
    pub name: Vec<u8>,
    pub kind: EntryKind,
}

/// The walk through a package: the directories still to be read, as paths
/// relative to the package.
#[derive(Debug)]
pub struct TreeWalk {
    pub pending: Vec<UnixPath>,
}

/// What a directory holds that has to be digested, in order, up to the first
/// symbolic link, which a package must not hold.
#[derive(Debug)]
pub struct WalkStep {
    /// The files, as paths relative to the package.
    pub files: Vec<UnixPath>,
    pub symlink: Option<UnixPath>,
}

impl Ordered for Entry {
    /// By name.
    open spec fn precedes(self, other: Self) -> bool {
        bytes::less(self.name@, other.name@)
    }

    proof fn lemma_irreflexive(a: Self) {
        bytes::lemma_less_irreflexive(a.name@);
    }

    proof fn lemma_transitive(a: Self, b: Self, c: Self) {
        bytes::lemma_less_transitive(a.name@, b.name@, c.name@);
    }

    fn comes_before(&self, other: &Self) -> (r: bool) {
        bytes::is_less(&self.name, &other.name)
    }
}

impl Ordered for ContentDigest {
    /// By path.
    open spec fn precedes(self, other: Self) -> bool {
        path::path_less(self.path@, other.path@)
    }

    proof fn lemma_irreflexive(a: Self) {
        path::lemma_parts_less_irreflexive(path::components(a.path@));
    }

    proof fn lemma_transitive(a: Self, b: Self, c: Self) {
        path::lemma_parts_less_transitive(
            path::components(a.path@),
            path::components(b.path@),
            path::components(c.path@),
        );
    }

    fn comes_before(&self, other: &Self) -> (r: bool) {
        self.path.is_before(&other.path)
    }
}

/// Sorts entries by their names.
pub fn sort_entries(entries: Vec<Entry>) -> (r: Vec<Entry>)
    ensures
        sort::in_order(r@),
        r@.to_multiset() == entries@.to_multiset(),
{
    sort::sorted(entries)
}

/// Sorts paths.
pub fn sort_paths(items: Vec<UnixPath>) -> (r: Vec<UnixPath>)
    ensures
        sort::in_order(r@),
        r@.to_multiset() == items@.to_multiset(),
{
    sort::sorted(items)
}

/// Sorts digests by their paths.
pub fn sort_digests(items: Vec<ContentDigest>) -> (r: Vec<ContentDigest>)
    ensures
        sort::in_order(r@),
        r@.to_multiset() == items@.to_multiset(),
{
    sort::sorted(items)
}

/// How many entries come before the first symbolic link.
pub open spec fn before_symlink(entries: Seq<Entry>) -> int
    decreases entries.len(),
{
    if entries.len() == 0 || entries[0].kind == EntryKind::Symlink {
        0
    } else {
        1 + before_symlink(entries.drop_first())
    }
}

/// The entries of a kind, as paths in the directory `current`.
pub open spec fn entries_of(entries: Seq<Entry>, kind: EntryKind, current: Seq<u8>) -> Seq<Seq<u8>>
    decreases entries.len(),
{
    if entries.len() == 0 {
        Seq::empty()
    } else {
        let rest = entries_of(entries.drop_last(), kind, current);
        if entries.last().kind == kind {
            rest.push(path::joined(current, entries.last().name@))
        } else {
            rest
        }
    }
}

/// Whether `step` is what a directory `current` with these entries, in order,
/// holds, and `after` the directories still to be read.
pub open spec fn walks(
    pending: Seq<UnixPath>,
    current: Seq<u8>,
    entries: Seq<Entry>,
    after: Seq<UnixPath>,
    step: WalkStep,
) -> bool {
    let n = before_symlink(entries);
    let seen = entries.take(n);
    &&& path::path_views(after) == path::path_views(pending) + entries_of(seen, EntryKind::Directory, current)
    &&& path::path_views(step.files@) == entries_of(seen, EntryKind::File, current)
    &&& match step.symlink {
        Some(link) => n < entries.len() && link@ == path::joined(current, entries[n].name@),
        None => n == entries.len(),
    }
}

proof fn lemma_before_symlink(entries: Seq<Entry>, k: int)
    requires
        0 <= k <= entries.len(),
        forall|i: int| 0 <= i < k ==> (#[trigger] entries[i]).kind != EntryKind::Symlink,
        k < entries.len() ==> entries[k].kind == EntryKind::Symlink,
    ensures
        before_symlink(entries) == k,
    decreases entries.len(),
{
    if k > 0 {
        let rest = entries.drop_first();
        assert forall|i: int| 0 <= i < k - 1 implies (#[trigger] rest[i]).kind
            != EntryKind::Symlink by {
            assert(rest[i] == entries[i + 1]);
        }
        lemma_before_symlink(rest, k - 1);
    }
}

impl TreeWalk {
    /// A walk that has not begun: the package itself is to be read.
    pub fn new() -> (r: Self)
        ensures
            path::path_views(r.pending@) == seq![Seq::<u8>::empty()],
    {
        let mut pending: Vec<UnixPath> = Vec::new();
        pending.push(UnixPath::new(Vec::new()));
        proof {
            assert(path::path_views(pending@) =~= seq![Seq::<u8>::empty()]);
        }
        TreeWalk { pending }
    }

    /// The next directory to read.
    pub fn next(&mut self) -> (r: Option<UnixPath>)
        ensures
            match r {
                Some(current) => old(self).pending@.len() > 0 && current
                    == old(self).pending@.last() && final(self).pending@
                    == old(self).pending@.drop_last(),
                None => old(self).pending@.len() == 0 && final(self).pending@
                    == old(self).pending@,
            },
    {
        self.pending.pop()
    }

    /// Takes the entries of the directory `current`, in the order of their
    /// names: what has to be digested of it, and what else has to be read.
    pub fn read(&mut self, current: &UnixPath, entries: &Vec<Entry>) -> (step: WalkStep)
        requires
            sort::in_order(entries@),
        ensures
            walks(old(self).pending@, current@, entries@, final(self).pending@, step),
    {
        let mut files: Vec<UnixPath> = Vec::new();
        let ghost start = path::path_views(self.pending@);
        let mut i: usize = 0;
        proof {
            assert(path::path_views(files@) =~= Seq::<Seq<u8>>::empty());
            assert(start =~= start + Seq::<Seq<u8>>::empty());
        }
        while i < entries.len()
            invariant
                i <= entries@.len(),
                forall|j: int|
                    0 <= j < i ==> (#[trigger] entries@[j]).kind != EntryKind::Symlink,
                path::path_views(self.pending@) == start + entries_of(
                    entries@.take(i as int),
                    EntryKind::Directory,
                    current@,
                ),
                path::path_views(files@) == entries_of(
                    entries@.take(i as int),
                    EntryKind::File,
                    current@,
                ),
                start == path::path_views(old(self).pending@),
            decreases entries@.len() - i,
        {
            proof {
                assert(entries@.take(i + 1).drop_last() =~= entries@.take(i as int));
            }
            let ghost waiting = path::path_views(self.pending@);
            let ghost found = path::path_views(files@);
            let kind = entries[i].kind;
            let entry = current.join(&UnixPath::new(bytes::copied(&entries[i].name)));
            let ghost entry_view = entry@;
            if kind == EntryKind::Symlink {
                proof {
                    lemma_before_symlink(entries@, i as int);
                }
                return WalkStep { files, symlink: Some(entry) };
            }
            if kind == EntryKind::Directory {
                self.pending.push(entry);
                proof {
                    assert(path::path_views(self.pending@) =~= waiting.push(entry_view));
                    let seen = entries_of(
                        entries@.take(i as int),
                        EntryKind::Directory,
                        current@,
                    );
                    assert((start + seen).push(entry_view) =~= start + seen.push(entry_view));
                }
            } else if kind == EntryKind::File {
                files.push(entry);
                proof {
                    assert(path::path_views(files@) =~= found.push(entry_view));
                }
            }
            i = i + 1;
        }
        proof {
            lemma_before_symlink(entries@, i as int);
            assert(entries@.take(i as int) =~= entries@);
        }
        WalkStep { files, symlink: None }
    }
}

/// What stands in a directory tree.
pub enum Node {
    Directory(Seq<Named>),
    File,
    Symlink,
    Other,
}

/// What stands in a directory, with its name.
pub struct Named {
    pub name: Seq<u8>,
    pub node: Node,
}

impl Node {
    /// What a directory entry says of it.
    pub open spec fn kind(self) -> EntryKind {
        match self {
            Node::Directory(_) => EntryKind::Directory,
            Node::File => EntryKind::File,
            Node::Symlink => EntryKind::Symlink,
            Node::Other => EntryKind::Other,
        }
    }
}

/// Whether the entries that were read are what the directory holds.
pub open spec fn lists(entries: Seq<Entry>, directory: Seq<Named>) -> bool {
    &&& entries.len() == directory.len()
    &&& forall|i: int|
        0 <= i < entries.len() ==> (#[trigger] entries[i]).name@ == directory[i].name
            && entries[i].kind == directory[i].node.kind()
}

/// What a directory at `current` holds of a kind, as paths.
pub open spec fn held_in(directory: Seq<Named>, kind: EntryKind, current: Seq<u8>) -> Seq<Seq<u8>>
    decreases directory.len(),
{
    if directory.len() == 0 {
        Seq::empty()
    } else {
        let rest = held_in(directory.drop_last(), kind, current);
        if directory.last().node.kind() == kind {
            rest.push(path::joined(current, directory.last().name))
        } else {
            rest
        }
    }
}

/// What the directories in a directory hold, in the same order.
pub open spec fn directories_in(directory: Seq<Named>) -> Seq<Seq<Named>>
    decreases directory.len(),
{
    if directory.len() == 0 {
        Seq::empty()
    } else {
        let rest = directories_in(directory.drop_last());
        match directory.last().node {
            Node::Directory(held) => rest.push(held),
            _ => rest,
        }
    }
}

/// The paths of all that is of a kind below a directory at `current`, however
/// deep.
pub open spec fn below(directory: Seq<Named>, kind: EntryKind, current: Seq<u8>) -> Multiset<Seq<u8>>
    decreases directory,
{
    if directory.len() == 0 {
        Multiset::empty()
    } else {
        let last = directory[directory.len() - 1];
        let at = path::joined(current, last.name);
        let rest = below(directory.drop_last(), kind, current);
        let own = if last.node.kind() == kind {
            rest.insert(at)
        } else {
            rest
        };
        match last.node {
            Node::Directory(held) => own.add(below(held, kind, at)),
            _ => own,
        }
    }
}

/// How far a walk has got: the directories still to be read, each with what it
/// holds, and the files found so far.
pub struct Walked {
    pub pending: Seq<Seq<u8>>,
    pub directories: Seq<Seq<Named>>,
    pub files: Multiset<Seq<u8>>,
}

/// Whether a walk that has got as far as `before` and reads the next directory
/// has got as far as `after`. A directory with a symbolic link in it ends the
/// walk.
pub open spec fn walks_on(before: Walked, after: Walked) -> bool {
    let current = before.pending.last();
    let directory = before.directories.last();
    &&& before.pending.len() > 0
    &&& held_in(directory, EntryKind::Symlink, current).len() == 0
    &&& after.pending == before.pending.drop_last() + held_in(
        directory,
        EntryKind::Directory,
        current,
    )
    &&& after.directories == before.directories.drop_last() + directories_in(directory)
    &&& after.files == before.files.add(
        held_in(directory, EntryKind::File, current).to_multiset(),
    )
}

/// A walk through a package that holds this.
pub open spec fn walk_begins(root: Seq<Named>) -> Walked {
    Walked {
        pending: seq![Seq::<u8>::empty()],
        directories: seq![root],
        files: Multiset::empty(),
    }
}

/// What is still to be found of a kind in the directories to be read.
spec fn to_find(
    pending: Seq<Seq<u8>>,
    directories: Seq<Seq<Named>>,
    kind: EntryKind,
) -> Multiset<Seq<u8>>
    decreases pending.len(),
{
    if pending.len() == 0 {
        Multiset::empty()
    } else {
        to_find(pending.drop_last(), directories.drop_last(), kind).add(
            below(directories.last(), kind, pending.last()),
        )
    }
}

proof fn lemma_listed(entries: Seq<Entry>, directory: Seq<Named>, kind: EntryKind, current: Seq<u8>)
    requires
        lists(entries, directory),
    ensures
        entries_of(entries, kind, current) == held_in(directory, kind, current),
    decreases entries.len(),
{
    if entries.len() > 0 {
        let last = entries.len() - 1;
        assert(entries[last].name@ == directory[last].name);
        assert forall|i: int| 0 <= i < last implies (#[trigger] entries.drop_last()[i]).name@
            == directory.drop_last()[i].name && entries.drop_last()[i].kind
            == directory.drop_last()[i].node.kind() by {
            assert(entries[i].name@ == directory[i].name);
        }
        lemma_listed(entries.drop_last(), directory.drop_last(), kind, current);
    }
}

/// Reading a directory without a symbolic link in it walks on as the tree has
/// it.
pub proof fn law_a_read_walks_on(
    pending: Seq<UnixPath>,
    directories: Seq<Seq<Named>>,
    files: Multiset<Seq<u8>>,
    entries: Seq<Entry>,
    after: Seq<UnixPath>,
    step: WalkStep,
)
    requires
        pending.len() > 0,
        lists(entries, directories.last()),
        walks(pending.drop_last(), pending.last()@, entries, after, step),
        step.symlink is None,
    ensures
        walks_on(
            Walked { pending: path::path_views(pending), directories, files },
            Walked {
                pending: path::path_views(after),
                directories: directories.drop_last() + directories_in(directories.last()),
                files: files.add(path::path_views(step.files@).to_multiset()),
            },
        ),
{
    let current = pending.last()@;
    let directory = directories.last();
    let views = path::path_views(pending);
    assert(views.last() == current);
    assert(views.drop_last() =~= path::path_views(pending.drop_last()));
    assert(entries.take(entries.len() as int) =~= entries);
    lemma_listed(entries, directory, EntryKind::Directory, current);
    lemma_listed(entries, directory, EntryKind::File, current);
    lemma_listed(entries, directory, EntryKind::Symlink, current);
    lemma_no_symlink(entries, current);
}

proof fn lemma_no_symlink(entries: Seq<Entry>, current: Seq<u8>)
    requires
        before_symlink(entries) == entries.len(),
    ensures
        entries_of(entries, EntryKind::Symlink, current).len() == 0,
{
    lemma_none_before(entries);
    lemma_none_of_kind(entries, current);
}

proof fn lemma_none_before(entries: Seq<Entry>)
    ensures
        0 <= before_symlink(entries) <= entries.len(),
        forall|i: int|
            0 <= i < before_symlink(entries) ==> (#[trigger] entries[i]).kind
                != EntryKind::Symlink,
    decreases entries.len(),
{
    if entries.len() > 0 && entries[0].kind != EntryKind::Symlink {
        let rest = entries.drop_first();
        lemma_none_before(rest);
        assert forall|i: int| 0 <= i < before_symlink(entries) implies (#[trigger] entries[i]).kind
            != EntryKind::Symlink by {
            if i > 0 {
                assert(rest[i - 1] == entries[i]);
            }
        }
    }
}

proof fn lemma_none_of_kind(entries: Seq<Entry>, current: Seq<u8>)
    requires
        forall|i: int|
            0 <= i < entries.len() ==> (#[trigger] entries[i]).kind != EntryKind::Symlink,
    ensures
        entries_of(entries, EntryKind::Symlink, current).len() == 0,
    decreases entries.len(),
{
    if entries.len() > 0 {
        assert(entries[entries.len() - 1].kind != EntryKind::Symlink);
        lemma_none_of_kind(entries.drop_last(), current);
    }
}

/// What is below a directory stands in it, or below the directories in it.
proof fn lemma_below(directory: Seq<Named>, kind: EntryKind, current: Seq<u8>)
    requires
        kind != EntryKind::Directory,
    ensures
        held_in(directory, EntryKind::Directory, current).len() == directories_in(directory).len(),
        below(directory, kind, current) == held_in(directory, kind, current).to_multiset().add(
            to_find(
                held_in(directory, EntryKind::Directory, current),
                directories_in(directory),
                kind,
            ),
        ),
    decreases directory.len(),
{
    broadcast use vstd::seq_lib::group_to_multiset_ensures;

    if directory.len() > 0 {
        let rest = directory.drop_last();
        let last = directory.last();
        let at = path::joined(current, last.name);
        lemma_below(rest, kind, current);
        let own = held_in(rest, kind, current);
        let inner = held_in(rest, EntryKind::Directory, current);
        let inner_held = directories_in(rest);
        match last.node {
            Node::Directory(held) => {
                assert(inner.push(at).drop_last() =~= inner);
                assert(inner_held.push(held).drop_last() =~= inner_held);
                assert(below(directory, kind, current) =~= held_in(directory, kind, current)
                    .to_multiset().add(
                    to_find(inner.push(at), inner_held.push(held), kind),
                ));
            },
            _ => {
                if last.node.kind() == kind {
                    assert(own.push(at).to_multiset() =~= own.to_multiset().insert(at));
                }
                assert(below(directory, kind, current) =~= held_in(directory, kind, current)
                    .to_multiset().add(to_find(inner, inner_held, kind)));
            },
        }
    } else {
        assert(held_in(directory, kind, current).to_multiset() =~= Multiset::empty());
        assert(below(directory, kind, current) =~= Multiset::empty());
        assert(to_find(
            held_in(directory, EntryKind::Directory, current),
            directories_in(directory),
            kind,
        ) =~= Multiset::empty());
    }
}

proof fn lemma_to_find_more(
    pending: Seq<Seq<u8>>,
    directories: Seq<Seq<Named>>,
    more: Seq<Seq<u8>>,
    held: Seq<Seq<Named>>,
    kind: EntryKind,
)
    requires
        pending.len() == directories.len(),
        more.len() == held.len(),
    ensures
        to_find(pending + more, directories + held, kind) == to_find(
            pending,
            directories,
            kind,
        ).add(to_find(more, held, kind)),
    decreases more.len(),
{
    if more.len() == 0 {
        assert(pending + more =~= pending);
        assert(directories + held =~= directories);
        assert(to_find(pending, directories, kind).add(Multiset::empty()) =~= to_find(
            pending,
            directories,
            kind,
        ));
    } else {
        lemma_to_find_more(pending, directories, more.drop_last(), held.drop_last(), kind);
        assert((pending + more).drop_last() =~= pending + more.drop_last());
        assert((directories + held).drop_last() =~= directories + held.drop_last());
        assert(to_find(pending + more, directories + held, kind) =~= to_find(
            pending,
            directories,
            kind,
        ).add(to_find(more, held, kind)));
    }
}

/// What is still to be found when a walk has gone on.
proof fn lemma_walks_on(before: Walked, after: Walked)
    requires
        before.pending.len() == before.directories.len(),
        walks_on(before, after),
    ensures
        after.pending.len() == after.directories.len(),
        after.files.add(to_find(after.pending, after.directories, EntryKind::File))
            == before.files.add(to_find(before.pending, before.directories, EntryKind::File)),
        to_find(after.pending, after.directories, EntryKind::Symlink) == to_find(
            before.pending,
            before.directories,
            EntryKind::Symlink,
        ),
{
    broadcast use vstd::seq_lib::group_to_multiset_ensures;

    let current = before.pending.last();
    let directory = before.directories.last();
    let more = held_in(directory, EntryKind::Directory, current);
    let held = directories_in(directory);
    let pending = before.pending.drop_last();
    let directories = before.directories.drop_last();
    lemma_below(directory, EntryKind::File, current);
    lemma_below(directory, EntryKind::Symlink, current);
    lemma_to_find_more(pending, directories, more, held, EntryKind::File);
    lemma_to_find_more(pending, directories, more, held, EntryKind::Symlink);
    assert(after.files.add(to_find(after.pending, after.directories, EntryKind::File))
        =~= before.files.add(to_find(before.pending, before.directories, EntryKind::File)));
    let links = held_in(directory, EntryKind::Symlink, current);
    assert(links.to_multiset() =~= Multiset::empty()) by {
        assert(links =~= Seq::<Seq<u8>>::empty());
    }
    assert(to_find(after.pending, after.directories, EntryKind::Symlink) =~= to_find(
        before.pending,
        before.directories,
        EntryKind::Symlink,
    ));
}

proof fn lemma_walk(root: Seq<Named>, states: Seq<Walked>)
    requires
        states.len() > 0,
        states[0] == walk_begins(root),
        forall|k: int| 0 < k < states.len() ==> walks_on(states[k - 1], #[trigger] states[k]),
    ensures
        states.last().pending.len() == states.last().directories.len(),
        states.last().files.add(
            to_find(states.last().pending, states.last().directories, EntryKind::File),
        ) == below(root, EntryKind::File, Seq::empty()),
        to_find(states.last().pending, states.last().directories, EntryKind::Symlink) == below(
            root,
            EntryKind::Symlink,
            Seq::empty(),
        ),
    decreases states.len(),
{
    if states.len() == 1 {
        let first = walk_begins(root);
        reveal_with_fuel(to_find, 2);
        assert(first.pending.drop_last() =~= Seq::<Seq<u8>>::empty());
        assert(first.files.add(to_find(first.pending, first.directories, EntryKind::File))
            =~= below(root, EntryKind::File, Seq::empty()));
        assert(to_find(first.pending, first.directories, EntryKind::Symlink) =~= below(
            root,
            EntryKind::Symlink,
            Seq::empty(),
        ));
    } else {
        let earlier = states.drop_last();
        assert forall|k: int| 0 < k < earlier.len() implies walks_on(
            earlier[k - 1],
            #[trigger] earlier[k],
        ) by {
            assert(walks_on(states[k - 1], states[k]));
        }
        lemma_walk(root, earlier);
        let last = states.len() - 1;
        assert(walks_on(states[last - 1], states[last]));
        lemma_walks_on(states[last - 1], states[last]);
    }
}

/// A walk through a package that comes to its end has found every regular file
/// of the tree once, however deep it stands, and nothing else; and the tree
/// holds no symbolic link.
pub proof fn law_a_walk_finds_every_file_once(root: Seq<Named>, states: Seq<Walked>)
    requires
        states.len() > 0,
        states[0] == walk_begins(root),
        forall|k: int| 0 < k < states.len() ==> walks_on(states[k - 1], #[trigger] states[k]),
        states.last().pending.len() == 0,
    ensures
        states.last().files == below(root, EntryKind::File, Seq::empty()),
        below(root, EntryKind::Symlink, Seq::empty()) == Multiset::<Seq<u8>>::empty(),
{
    lemma_walk(root, states);
    assert(states.last().files.add(Multiset::empty()) =~= states.last().files);
}

/// Why a package with a symbolic link in it is refused: its digests would not
/// cover what the link leads to.
pub fn symlink_error(directory: &UnixPath, link: &UnixPath) -> (r: String)
    ensures
        r@ == "package entry "@ + path::lossy(path::joined(directory@, link@))
            + " is a symbolic link"@,
{
    let mut out = "package entry ".to_owned();
    out.append(directory.join(link).display().as_str());
    out.append(" is a symbolic link");
    out
}

/// A directory below a search directory.
#[derive(Debug)]
pub struct Candidate {
    pub name: Vec<u8>,
    pub is_dir: bool,
    /// Whether it holds a file `service.toml`.
    pub has_manifest: bool,
}

/// The manifest of a package directory.
pub const MANIFEST_NAME: &'static str = "service.toml";

/// The manifests of the candidates in a search directory.
pub open spec fn candidate_manifests(search_dir: Seq<u8>, candidates: Seq<Candidate>) -> Seq<Seq<u8>>
    decreases candidates.len(),
{
    if candidates.len() == 0 {
        Seq::empty()
    } else {
        let rest = candidate_manifests(search_dir, candidates.drop_last());
        let last = candidates.last();
        if last.is_dir && last.has_manifest {
            rest.push(
                path::joined(
                    path::joined(search_dir, last.name@),
                    vstd::utf8::encode_utf8(MANIFEST_NAME@),
                ),
            )
        } else {
            rest
        }
    }
}

/// The manifests in a search directory.
pub fn manifests_in(search_dir: &UnixPath, candidates: &Vec<Candidate>) -> (r: Vec<UnixPath>)
    ensures
        path::path_views(r@) == candidate_manifests(search_dir@, candidates@),
{
    let mut r: Vec<UnixPath> = Vec::new();
    let name = UnixPath::from_text(MANIFEST_NAME);
    let mut i: usize = 0;
    proof {
        assert(path::path_views(r@) =~= Seq::<Seq<u8>>::empty());
    }
    while i < candidates.len()
        invariant
            i <= candidates@.len(),
            name@ == vstd::utf8::encode_utf8(MANIFEST_NAME@),
            path::path_views(r@) == candidate_manifests(search_dir@, candidates@.take(i as int)),
        decreases candidates@.len() - i,
    {
        proof {
            assert(candidates@.take(i + 1).drop_last() =~= candidates@.take(i as int));
        }
        let ghost before = path::path_views(r@);
        if candidates[i].is_dir && candidates[i].has_manifest {
            let directory = search_dir.join(&UnixPath::new(bytes::copied(&candidates[i].name)));
            let manifest = directory.join(&name);
            let ghost manifest_view = manifest@;
            r.push(manifest);
            proof {
                assert(path::path_views(r@) =~= before.push(manifest_view));
            }
        }
        i = i + 1;
    }
    proof {
        assert(candidates@.take(candidates@.len() as int) =~= candidates@);
    }
    r
}

/// What is selected is one of the packages.
pub proof fn lemma_selected(
    packages: Seq<DiscoveredPackage>,
    name: Seq<char>,
    version: Option<Seq<char>>,
)
    ensures
        selected(packages, name, version) matches Some(i) ==> 0 <= i < packages.len(),
{
    lemma_wanted(packages, name, version);
}

/// A package is selected where it is the only one of that name and, where one is
/// asked for, that version: it is the one package that has them, and nothing is
/// selected where none has them or several do.
pub proof fn law_the_only_match_is_selected(
    packages: Seq<DiscoveredPackage>,
    name: Seq<char>,
    version: Option<Seq<char>>,
    i: int,
)
    requires
        0 <= i < packages.len(),
    ensures
        selected(packages, name, version) == Some(i) <==> {
            &&& packages[i].manifest.service.name@ == name
            &&& version matches Some(version) ==> packages[i].manifest.service.version@ == version
            &&& forall|j: int|
                0 <= j < packages.len() && j != i ==> !(
                (#[trigger] packages[j]).manifest.service.name@ == name && (version is None
                    || packages[j].manifest.service.version@ == version->0))
        },
        wanted(packages, name, version).len() == 0 ==> !(packages[i].manifest.service.name@ == name
            && (version is None || packages[i].manifest.service.version@ == version->0)),
        packages[i].manifest.service.name@ == name && (version is None
            || packages[i].manifest.service.version@ == version->0) ==> versions_at(
            packages,
            wanted(packages, name, version),
        ).contains(packages[i].manifest.service.version@),
{
    lemma_wanted(packages, name, version);
    let found = wanted(packages, name, version);
    if is_wanted(packages[i], name, version) {
        assert(found.contains(i));
        let k = choose|k: int| 0 <= k < found.len() && found[k] == i;
        assert(versions_at(packages, found)[k] == packages[i].manifest.service.version@);
        if forall|j: int|
            0 <= j < packages.len() && j != i ==> !is_wanted(#[trigger] packages[j], name, version) {
            if found.len() > 1 {
                let other = if k == 0 {
                    1int
                } else {
                    0
                };
                assert(found[other] != found[k]);
                assert(is_wanted(packages[found[other]], name, version));
            }
        } else {
            let j = choose|j: int|
                0 <= j < packages.len() && j != i && is_wanted(#[trigger] packages[j], name, version);
            assert(found.contains(j));
            if found.len() == 1 {
                let l = choose|l: int| 0 <= l < found.len() && found[l] == j;
                assert(found[l] == found[k]);
            }
        }
    } else if selected(packages, name, version) == Some(i) {
        assert(is_wanted(packages[found[0]], name, version));
    }
}

/// The installed packages stand in order of their names, and those of one name
/// in order of their versions, each name and version once.
pub proof fn law_packages_stand_by_name_and_version(index: ServiceIndex, i: int, j: int)
    requires
        index.valid(),
        0 <= i < j < index.packages@.len(),
    ensures
        ({
            let a = index.packages@[i].manifest.service;
            let b = index.packages@[j].manifest.service;
            &&& !bytes::less(
                vstd::utf8::encode_utf8(b.name@),
                vstd::utf8::encode_utf8(a.name@),
            )
            &&& a.name@ == b.name@ ==> bytes::less(
                vstd::utf8::encode_utf8(a.version@),
                vstd::utf8::encode_utf8(b.version@),
            )
            &&& a.name@ != b.name@ || a.version@ != b.version@
        }),
{
    let a = index.packages@[i].manifest.service;
    let b = index.packages@[j].manifest.service;
    assert(service_less(a, b));
    lemma_service_strict(a, b);
    bytes::lemma_less_irreflexive(vstd::utf8::encode_utf8(a.name@));
    if text_less(b.name@, a.name@) && text_less(a.name@, b.name@) {
        lemma_text_transitive(a.name@, b.name@, a.name@);
    }
}

proof fn lemma_found_first(
    found: Seq<(Manifest, Vec<ContentDigest>)>,
    service: Service,
    k: int,
)
    requires
        0 <= k < found.len(),
        same_service(found[k].0.service, service),
        forall|j: int| 0 <= j < k ==> !same_service((#[trigger] found[j]).0.service, service),
    ensures
        found_for(found, service).len() > 0,
        found_for(found, service)[0] == found[k],
    decreases found.len(),
{
    let shorter = found.drop_last();
    if k < found.len() - 1 {
        lemma_found_first(shorter, service, k);
    } else {
        assert forall|j: int| 0 <= j < shorter.len() implies !same_service(
            (#[trigger] shorter[j]).0.service,
            service,
        ) by {
            assert(shorter[j] == found[j]);
        }
        lemma_nothing_found(shorter, service);
    }
}

/// Of the packages found for a name and version, in the order of the search,
/// the first is the installed one, with its own content; every later one only
/// stands in its shadow.
pub proof fn law_the_first_found_is_installed(
    packages: Seq<DiscoveredPackage>,
    found: Seq<(Manifest, Vec<ContentDigest>)>,
    k: int,
) -> (i: int)
    requires
        indexes(packages, found),
        0 <= k < found.len(),
        forall|j: int|
            0 <= j < k ==> (#[trigger] found[j]).0.service.name@ != found[k].0.service.name@
                || found[j].0.service.version@ != found[k].0.service.version@,
    ensures
        0 <= i < packages.len(),
        packages[i].manifest == found[k].0,
        packages[i].files == found[k].1,
{
    let i = choose|i: int|
        0 <= i < packages.len() && same_service(
            (#[trigger] packages[i]).manifest.service,
            found[k].0.service,
        );
    let service = packages[i].manifest.service;
    assert forall|j: int| 0 <= j < k implies !same_service(
        (#[trigger] found[j]).0.service,
        service,
    ) by {}
    lemma_found_first(found, service, k);
    assert(stands_for(packages[i], found_for(found, service)));
    i
}

proof fn lemma_candidate_manifests(search_dir: Seq<u8>, candidates: Seq<Candidate>, i: int)
    requires
        0 <= i < candidates.len(),
    ensures
        candidates[i].is_dir && candidates[i].has_manifest ==> candidate_manifests(
            search_dir,
            candidates,
        ).contains(
            path::joined(
                path::joined(search_dir, candidates[i].name@),
                vstd::utf8::encode_utf8("service.toml"@),
            ),
        ),
    decreases candidates.len(),
{
    let rest = candidate_manifests(search_dir, candidates.drop_last());
    let all = candidate_manifests(search_dir, candidates);
    if i < candidates.len() - 1 {
        lemma_candidate_manifests(search_dir, candidates.drop_last(), i);
        if candidates[i].is_dir && candidates[i].has_manifest {
            let at = path::joined(
                path::joined(search_dir, candidates[i].name@),
                vstd::utf8::encode_utf8("service.toml"@),
            );
            let k = choose|k: int| 0 <= k < rest.len() && rest[k] == at;
            assert(all[k] == at);
        }
    } else if candidates[i].is_dir && candidates[i].has_manifest {
        assert(all.last() == all[all.len() - 1]);
    }
}

/// Every directory of a search directory that holds a `service.toml` is a
/// package with that manifest, and nothing else is one.
pub proof fn law_packages_are_directories_with_a_manifest(
    search_dir: Seq<u8>,
    candidates: Seq<Candidate>,
    i: int,
    k: int,
) -> (from: int)
    requires
        0 <= i < candidates.len(),
        0 <= k < candidate_manifests(search_dir, candidates).len(),
    ensures
        candidates[i].is_dir && candidates[i].has_manifest ==> candidate_manifests(
            search_dir,
            candidates,
        ).contains(
            path::joined(
                path::joined(search_dir, candidates[i].name@),
                vstd::utf8::encode_utf8("service.toml"@),
            ),
        ),
        0 <= from < candidates.len(),
        candidates[from].is_dir,
        candidates[from].has_manifest,
        candidate_manifests(search_dir, candidates)[k] == path::joined(
            path::joined(search_dir, candidates[from].name@),
            vstd::utf8::encode_utf8("service.toml"@),
        ),
{
    lemma_candidate_manifests(search_dir, candidates, i);
    lemma_manifest_source(search_dir, candidates, k)
}

proof fn lemma_manifest_source(
    search_dir: Seq<u8>,
    candidates: Seq<Candidate>,
    k: int,
) -> (from: int)
    requires
        0 <= k < candidate_manifests(search_dir, candidates).len(),
    ensures
        0 <= from < candidates.len(),
        candidates[from].is_dir,
        candidates[from].has_manifest,
        candidate_manifests(search_dir, candidates)[k] == path::joined(
            path::joined(search_dir, candidates[from].name@),
            vstd::utf8::encode_utf8("service.toml"@),
        ),
    decreases candidates.len(),
{
    let rest = candidate_manifests(search_dir, candidates.drop_last());
    if k < rest.len() {
        lemma_manifest_source(search_dir, candidates.drop_last(), k)
    } else {
        candidates.len() - 1
    }
}

proof fn lemma_entries_of(entries: Seq<Entry>, kind: EntryKind, current: Seq<u8>, i: int)
    requires
        0 <= i < entries.len(),
        entries[i].kind == kind,
    ensures
        entries_of(entries, kind, current).contains(path::joined(current, entries[i].name@)),
    decreases entries.len(),
{
    let rest = entries_of(entries.drop_last(), kind, current);
    let all = entries_of(entries, kind, current);
    let at = path::joined(current, entries[i].name@);
    if i < entries.len() - 1 {
        lemma_entries_of(entries.drop_last(), kind, current, i);
        let k = choose|k: int| 0 <= k < rest.len() && rest[k] == at;
        assert(all[k] == at);
    } else {
        assert(all[all.len() - 1] == at);
    }
}

/// A directory without a symbolic link in it is read whole: each of its files
/// is one of the package's, and each of its directories is read later. One
/// with a symbolic link is refused with the first of them.
pub proof fn law_a_directory_is_read_whole(
    pending: Seq<UnixPath>,
    current: Seq<u8>,
    entries: Seq<Entry>,
    after: Seq<UnixPath>,
    step: WalkStep,
    i: int,
)
    requires
        walks(pending, current, entries, after, step),
        0 <= i < entries.len(),
    ensures
        step.symlink is None && entries[i].kind == EntryKind::File ==> path::path_views(
            step.files@,
        ).contains(path::joined(current, entries[i].name@)),
        step.symlink is None && entries[i].kind == EntryKind::Directory ==> path::path_views(
            after,
        ).contains(path::joined(current, entries[i].name@)),
        entries[i].kind == EntryKind::Symlink ==> step.symlink is Some,
        entries[i].kind == EntryKind::Symlink && (forall|j: int|
            0 <= j < i ==> (#[trigger] entries[j]).kind != EntryKind::Symlink)
            ==> step.symlink is Some && (step.symlink->0)@ == path::joined(
            current,
            entries[i].name@,
        ),
        forall|k: int|
            0 <= k < pending.len() ==> #[trigger] path::path_views(after)[k] == pending[k]@,
{
    lemma_none_before(entries);
    let n = before_symlink(entries);
    if step.symlink is None {
        assert(entries.take(n) =~= entries);
        if entries[i].kind == EntryKind::File {
            lemma_entries_of(entries, EntryKind::File, current, i);
        }
        if entries[i].kind == EntryKind::Directory {
            lemma_entries_of(entries, EntryKind::Directory, current, i);
            let all = entries_of(entries, EntryKind::Directory, current);
            let at = path::joined(current, entries[i].name@);
            let k = choose|k: int| 0 <= k < all.len() && all[k] == at;
            assert(path::path_views(after)[pending.len() + k] == at);
        }
    }
    if entries[i].kind == EntryKind::Symlink && (forall|j: int|
        0 <= j < i ==> (#[trigger] entries[j]).kind != EntryKind::Symlink) {
        lemma_before_symlink(entries, i);
    }
    assert forall|k: int| 0 <= k < pending.len() implies #[trigger] path::path_views(after)[k]
        == pending[k]@ by {
        assert(path::path_views(pending)[k] == pending[k]@);
    }
}

/// A package that is added to an index is installed where none of its service
/// and version was, and else is shadowed by the one that was: that one keeps its
/// manifest and files, and no other package changes.
pub proof fn law_an_added_package_is_installed_or_shadowed(
    before: ServiceIndex,
    manifest: Manifest,
    files: Vec<ContentDigest>,
    after: ServiceIndex,
)
    requires
        before.adds(manifest, files, after),
    ensures
        ({
            let known = exists|i: int|
                0 <= i < before.packages@.len() && (
                #[trigger] before.packages@[i]).manifest.service.name@ == manifest.service.name@
                    && before.packages@[i].manifest.service.version@ == manifest.service.version@;
            &&& !known ==> after.packages@.len() == before.packages@.len() + 1 && exists|i: int|
                0 <= i < after.packages@.len() && (#[trigger] after.packages@[i]).manifest
                    == manifest && after.packages@[i].files == files
                    && after.packages@[i].shadowed@.len() == 0 && before.packages@
                    == after.packages@.remove(i)
            &&& known ==> after.packages@.len() == before.packages@.len() && exists|i: int|
                {
                    let new = #[trigger] after.packages@[i];
                    &&& 0 <= i < after.packages@.len()
                    &&& new.manifest == before.packages@[i].manifest
                    &&& new.manifest.service.name@ == manifest.service.name@
                    &&& new.manifest.service.version@ == manifest.service.version@
                    &&& new.files == before.packages@[i].files
                    &&& new.shadowed@.len() == before.packages@[i].shadowed@.len() + 1
                    &&& before.packages@[i].shadowed@.is_prefix_of(new.shadowed@)
                    &&& new.shadowed@.last().manifest == manifest
                    &&& new.shadowed@.last().files == files
                    &&& new.shadowed@.last().directory@ == manifest.directory@
                    &&& forall|j: int|
                        0 <= j < after.packages@.len() && j != i ==> #[trigger] after.packages@[j]
                            == before.packages@[j]
                }
        }),
{
    let (all, now) = (before.packages@, after.packages@);
    if exists|i: int|
        0 <= i < all.len() && same_service(
            (#[trigger] all[i]).manifest.service,
            manifest.service,
        ) {
        let i = choose|i: int|
            {
                let first = #[trigger] all[i];
                let new = now[i];
                &&& 0 <= i < all.len()
                &&& same_service(first.manifest.service, manifest.service)
                &&& now == all.update(i, new)
                &&& new.manifest == first.manifest
                &&& new.files == first.files
                &&& new.shadowed@.len() == first.shadowed@.len() + 1
                &&& new.shadowed@.drop_last() == first.shadowed@
                &&& new.shadowed@.last().directory@ == manifest.directory@
                &&& new.shadowed@.last().files == files
                &&& new.shadowed@.last().manifest == manifest
            };
        let new = now[i];
        assert(all[i].shadowed@ =~= new.shadowed@.subrange(0, all[i].shadowed@.len() as int));
        assert forall|j: int| 0 <= j < now.len() && j != i implies #[trigger] now[j] == all[j] by {}
    } else {
        let i = choose|i: int|
            {
                let new = #[trigger] now[i];
                &&& 0 <= i <= all.len()
                &&& now == all.insert(i, new)
                &&& new.manifest == manifest
                &&& new.files == files
                &&& new.shadowed@.len() == 0
            };
        assert(now.len() == all.len() + 1);
        assert(all =~= now.remove(i));
        if exists|k: int|
            0 <= k < all.len() && (#[trigger] all[k]).manifest.service.name@
                == manifest.service.name@ && all[k].manifest.service.version@
                == manifest.service.version@ {
            let k = choose|k: int|
                0 <= k < all.len() && (#[trigger] all[k]).manifest.service.name@
                    == manifest.service.name@ && all[k].manifest.service.version@
                    == manifest.service.version@;
            assert(same_service(all[k].manifest.service, manifest.service));
        }
    }
}

/// Everything that is installed is each package with its directory, followed by
/// each that it shadows, in their order.
pub proof fn law_everything_is_each_package_and_its_shadows(
    packages: Seq<DiscoveredPackage>,
    package: DiscoveredPackage,
    i: int,
)
    ensures
        ServiceIndex::everything(Seq::empty()) == Seq::<(Manifest, Seq<u8>)>::empty(),
        ({
            let before = ServiceIndex::everything(packages);
            let all = ServiceIndex::everything(packages.push(package));
            &&& all.len() == before.len() + 1 + package.shadowed@.len()
            &&& before.is_prefix_of(all)
            &&& all[before.len() as int] == (package.manifest, package.manifest.directory@)
            &&& 0 <= i < package.shadowed@.len() ==> all[before.len() + 1 + i] == (
                package.shadowed@[i].manifest,
                package.shadowed@[i].directory@,
            )
        }),
{
    assert(packages.push(package).drop_last() =~= packages);
    let before = ServiceIndex::everything(packages);
    let all = ServiceIndex::everything(packages.push(package));
    assert(before =~= all.subrange(0, before.len() as int));
}

} // verus!
