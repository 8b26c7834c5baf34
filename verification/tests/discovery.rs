use servicecache::digest::digest_hex;
use servicecache::discovery::{
    manifests_in, sort_digests, sort_entries, sort_paths, symlink_error, Candidate, ContentDigest, Entry,
    EntryKind, SelectError, ServiceIndex, TreeWalk,
};
use servicecache::manifest::{Guest, Manifest, Service};
use servicecache::path::UnixPath;

fn manifest(name: &str, version: &str, directory: &str) -> Manifest {
    Manifest {
        service: Service {
            name: name.to_string(),
            version: version.to_string(),
            extensions: Vec::new(),
        },
        prepare: None,
        guest: Guest {
            module: UnixPath::from_text(directory).join(&UnixPath::from_text("module.wasm")),
            args: Vec::new(),
            listen_port: 1234,
            ready: None,
        },
        initializer: None,
        directory: UnixPath::from_text(directory),
    }
}

fn files(marker: &str) -> Vec<ContentDigest> {
    sort_digests(vec![
        ContentDigest {
            path: UnixPath::from_text("service.toml"),
            sha256: digest_hex(b"[service]"),
        },
        ContentDigest {
            path: UnixPath::from_text("module.wasm"),
            sha256: digest_hex(marker.as_bytes()),
        },
    ])
}

fn entry(name: &str, kind: EntryKind) -> Entry {
    Entry { name: name.as_bytes().to_vec(), kind }
}

#[test]
fn first_package_wins_and_later_package_is_shadowed() {
    let index = ServiceIndex::discover(vec![
        (manifest("example", "1", "/a/first"), files("one")),
        (manifest("example", "1", "/b/second"), files("two")),
    ]);
    let package = index.iter().iter().next().expect("selected package");
    assert_eq!(package.manifest.directory(), &UnixPath::from_text("/a/first"));
    assert_eq!(package.shadowed.len(), 1);
    assert_eq!(package.shadowed[0].directory, UnixPath::from_text("/b/second"));
    assert_eq!(package.files.len(), 2);
    assert_eq!(index.all_packages().len(), 2);
    assert_eq!(index.all_packages()[1].1, &UnixPath::from_text("/b/second"));
}

#[test]
fn packages_stand_in_order_of_name_and_version() {
    let mut index = ServiceIndex::new();
    index.insert(manifest("b", "1", "/b1"), Vec::new());
    index.insert(manifest("a", "2", "/a2"), Vec::new());
    index.insert(manifest("a", "10", "/a10"), Vec::new());
    let order: Vec<(String, String)> = index
        .iter()
        .iter()
        .map(|package| {
            (package.manifest.service.name.clone(), package.manifest.service.version.clone())
        })
        .collect();
    let expected = [("a", "10"), ("a", "2"), ("b", "1")];
    assert_eq!(order.len(), expected.len());
    for (found, wanted) in order.iter().zip(expected) {
        assert_eq!((found.0.as_str(), found.1.as_str()), wanted);
    }
}

#[test]
fn a_name_selects_the_only_version() {
    let mut index = ServiceIndex::new();
    index.insert(manifest("a", "2", "/a2"), Vec::new());
    index.insert(manifest("a", "1", "/a1"), Vec::new());
    index.insert(manifest("b", "1", "/b1"), Vec::new());
    assert_eq!(index.select("b", None).expect("b").directory(), &UnixPath::from_text("/b1"));
    assert_eq!(index.select("a", Some("2")).expect("a").directory(), &UnixPath::from_text("/a2"));
    assert!(matches!(index.select("c", None), Err(SelectError::NotFound)));
    assert!(matches!(index.select("b", Some("2")), Err(SelectError::NotFound)));
    match index.select("a", None) {
        Err(SelectError::Ambiguous(versions)) => assert_eq!(versions, ["1", "2"]),
        other => panic!("{other:?}"),
    }
}

#[test]
fn digests_are_sha256_in_hex() {
    assert_eq!(
        digest_hex(b"abc"),
        "ba7816bf8f01cfea414140de5dae2223b00361a396177a9cb410ff61f20015ad"
    );
    assert_eq!(
        digest_hex(b""),
        "e3b0c44298fc1c149afbf4c8996fb92427ae41e4649b934ca495991b7852b855"
    );
}

#[test]
fn a_walk_reads_directories_in_name_order_and_stops_at_a_symlink() {
    let mut walk = TreeWalk::new();
    let root = walk.next().expect("the package itself");
    let step = walk.read(
        &root,
        &sort_entries(vec![
            entry("b.txt", EntryKind::File),
            entry("sub", EntryKind::Directory),
            entry("a.txt", EntryKind::File),
            entry("pipe", EntryKind::Other),
        ]),
    );
    assert!(step.symlink.is_none());
    assert_eq!(
        step.files,
        vec![UnixPath::from_text("a.txt"), UnixPath::from_text("b.txt")]
    );
    let sub = walk.next().expect("the directory");
    assert_eq!(sub, UnixPath::from_text("sub"));
    let step = walk.read(
        &sub,
        &vec![entry("real", EntryKind::File), entry("x", EntryKind::Symlink)],
    );
    let link = step.symlink.expect("a symbolic link");
    assert_eq!(link, UnixPath::from_text("sub/x"));
    assert_eq!(
        symlink_error(&UnixPath::from_text("/p"), &link),
        "package entry /p/sub/x is a symbolic link"
    );
    assert!(walk.next().is_none());
}

/// What stands at a path of a small package.
fn listing(directory: &UnixPath) -> Vec<Entry> {
    match directory.display().as_str() {
        "" => vec![
            entry("service.toml", EntryKind::File),
            entry("share", EntryKind::Directory),
            entry("empty", EntryKind::Directory),
        ],
        "share" => vec![
            entry("deep", EntryKind::Directory),
            entry("a", EntryKind::File),
            entry("socket", EntryKind::Other),
        ],
        "share/deep" => vec![entry("a", EntryKind::File), entry("b", EntryKind::File)],
        "empty" => Vec::new(),
        other => panic!("{other}"),
    }
}

#[test]
fn a_walk_finds_every_file_of_a_tree_once() {
    let mut walk = TreeWalk::new();
    let mut found = Vec::new();
    let mut reads = 0;
    while let Some(directory) = walk.next() {
        let step = walk.read(&directory, &sort_entries(listing(&directory)));
        assert!(step.symlink.is_none());
        found.extend(step.files);
        reads += 1;
    }
    assert_eq!(reads, 4);
    let found: Vec<String> = sort_paths(found).iter().map(|path| path.display()).collect();
    assert_eq!(found, ["service.toml", "share/a", "share/deep/a", "share/deep/b"]);
}

#[test]
fn entries_and_paths_are_sorted() {
    let sorted = sort_entries(vec![
        entry("b", EntryKind::File),
        entry("a", EntryKind::Directory),
        entry("ab", EntryKind::File),
    ]);
    let names: Vec<&[u8]> = sorted.iter().map(|entry| entry.name.as_slice()).collect();
    assert_eq!(names, [b"a".as_slice(), b"ab", b"b"]);
    // Paths are compared by their components, not by their bytes.
    let sorted = sort_paths(vec![UnixPath::from_text("a-b"), UnixPath::from_text("a/b")]);
    assert_eq!(sorted, vec![UnixPath::from_text("a/b"), UnixPath::from_text("a-b")]);
}

#[test]
fn packages_are_directories_with_a_manifest() {
    let candidate = |name: &str, is_dir, has_manifest| Candidate {
        name: name.as_bytes().to_vec(),
        is_dir,
        has_manifest,
    };
    let found = manifests_in(
        &UnixPath::from_text("/services"),
        &vec![
            candidate("zeta", true, true),
            candidate("file", false, true),
            candidate("empty", true, false),
            candidate("alpha", true, true),
        ],
    );
    let found = sort_paths(found);
    assert_eq!(
        found,
        vec![
            UnixPath::from_text("/services/alpha/service.toml"),
            UnixPath::from_text("/services/zeta/service.toml")
        ]
    );
}
