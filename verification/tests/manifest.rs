use servicecache::manifest::{
    decode_byte_string, package_paths, ByteStringError, Manifest, ManifestError, PathFacts,
    RawGuest, RawInitializer, RawManifest, RawPrepare, RawReadyProbe, Service,
};
use servicecache::path::UnixPath;
use servicecache::pattern;

/// A package directory: what stands in it, and what its symlinks lead to.
struct TestDirectory {
    path: &'static str,
    files: Vec<&'static str>,
    dirs: Vec<&'static str>,
    links: Vec<(&'static str, &'static str)>,
}

impl TestDirectory {
    fn new() -> Self {
        TestDirectory {
            path: "/packages/example",
            files: Vec::new(),
            dirs: vec![""],
            links: Vec::new(),
        }
    }

    fn join(&self, relative: &str) -> UnixPath {
        UnixPath::from_text(self.path).join(&UnixPath::from_text(relative))
    }

    /// What the filesystem says of a path.
    fn facts(&self, path: UnixPath) -> PathFacts {
        for (link, target) in &self.links {
            if path == self.join(link) {
                return PathFacts {
                    path,
                    is_file: true,
                    is_dir: false,
                    canonical: Ok(UnixPath::from_text(target)),
                };
            }
        }
        let is_file = self.files.iter().any(|file| path == self.join(file));
        let is_dir = self.dirs.iter().any(|dir| path.is_same_place(&self.join(dir)));
        let canonical = if is_file || is_dir {
            Ok(path.clone())
        } else {
            Err("No such file or directory (os error 2)".to_string())
        };
        PathFacts { path, is_file, is_dir, canonical }
    }

    fn load(&self, contents: &str) -> Result<Manifest, String> {
        let raw = parse(contents);
        let directory = UnixPath::from_text(self.path);
        let facts: Vec<PathFacts> = package_paths(&raw, &directory)
            .into_iter()
            .map(|path| self.facts(path))
            .collect();
        let canonical = directory.clone();
        Manifest::load(raw, directory, &canonical, &facts).map_err(|error| error.text())
    }
}

trait SamePlace {
    fn is_same_place(&self, other: &UnixPath) -> bool;
}

impl SamePlace for UnixPath {
    fn is_same_place(&self, other: &UnixPath) -> bool {
        self.components() == other.components()
    }
}

fn text(value: &toml::Value) -> String {
    value.as_str().expect("a string").to_string()
}

fn path(value: &toml::Value) -> UnixPath {
    UnixPath::from_text(value.as_str().expect("a path"))
}

fn texts(value: Option<&toml::Value>) -> Vec<String> {
    match value {
        Some(value) => value.as_array().expect("an array").iter().map(text).collect(),
        None => Vec::new(),
    }
}

fn parse(contents: &str) -> RawManifest {
    let table: toml::Table = contents.parse().expect("TOML");
    let service = table["service"].as_table().expect("[service]");
    let guest = table["guest"].as_table().expect("[guest]");
    RawManifest {
        service: Service {
            name: text(&service["name"]),
            version: text(&service["version"]),
            extensions: texts(service.get("extensions")),
        },
        prepare: table.get("prepare").map(|prepare| {
            let prepare = prepare.as_table().expect("[prepare]");
            let mut raw = RawPrepare {
                fs: Vec::new(),
                module: prepare.get("module").map(path),
                args: texts(prepare.get("args")),
                stdin_file: prepare.get("stdin_file").map(path),
            };
            if let Some(fs) = prepare.get("fs") {
                for (at, source) in fs.as_table().expect("fs") {
                    raw.mount(UnixPath::from_text(at), path(source));
                }
            }
            raw
        }),
        guest: RawGuest {
            module: path(&guest["module"]),
            args: texts(guest.get("args")),
            listen_port: u16::try_from(guest["listen_port"].as_integer().expect("a port"))
                .expect("a port"),
            ready: guest.get("ready").map(|ready| {
                let ready = ready.as_table().expect("ready");
                RawReadyProbe {
                    send: ready.get("send").map(text).unwrap_or_default(),
                    matches: text(&ready["matches"]),
                }
            }),
        },
        initializer: table.get("initializer").map(|initializer| {
            let initializer = initializer.as_table().expect("[initializer]");
            RawInitializer {
                module: path(&initializer["module"]),
                args: texts(initializer.get("args")),
            }
        }),
    }
}

fn manifest_with_module(module: &str) -> String {
    format!(
        r#"
            [service]
            name = "example"
            version = "1"

            [guest]
            module = "{module}"
            listen_port = 1234
        "#
    )
}

#[test]
fn resolves_relative_module_paths() {
    let mut directory = TestDirectory::new();
    directory.files.push("server.wasm");
    let manifest = directory.load(&manifest_with_module("server.wasm")).expect("load manifest");
    assert_eq!(manifest.guest.module, directory.join("server.wasm"));
    assert_eq!(manifest.guest.listen_port, 1234);
    assert_eq!(manifest.directory(), &UnixPath::from_text("/packages/example"));
    assert_eq!(manifest.modules(), vec![&directory.join("server.wasm")]);
}

#[test]
fn rejects_paths_that_leave_the_package() {
    let mut directory = TestDirectory::new();
    // `..` components are refused before anything is resolved.
    let error = directory.load(&manifest_with_module("../server.wasm")).expect_err("escape");
    assert!(error.contains("plain relative path"), "{error}");

    // A lexically clean path whose symlink resolves outside is refused too:
    // the package's digest would not cover what runs.
    directory.links.push(("server.wasm", "/outside/server.wasm"));
    let error = directory.load(&manifest_with_module("server.wasm")).expect_err("symlink escape");
    assert!(error.contains("resolves outside the package"), "{error}");
}

#[test]
fn mounts_the_package_root_as_a_source() {
    let mut directory = TestDirectory::new();
    directory.files.push("server.wasm");
    let manifest = directory
        .load(
            r#"
                [service]
                name = "example"
                version = "1"

                [prepare]
                fs = { "/service" = "." }

                [guest]
                module = "server.wasm"
                listen_port = 1234
            "#,
        )
        .expect("load manifest");
    let prepare = manifest.prepare.expect("a prepare step");
    assert_eq!(prepare.read_stdin(Ok(Vec::new())), Ok(Vec::new()));
    assert_eq!(prepare.fs.len(), 1);
    assert_eq!(prepare.fs[0].0, UnixPath::from_text("/service"));
    assert_eq!(
        prepare.fs[0].1.components(),
        UnixPath::from_text("/packages/example").components()
    );
    assert!(manifest.service.extensions.is_empty());
}

#[test]
fn byte_strings_decode_strictly() {
    assert_eq!(
        decode_byte_string(r"user\x00example\x00\\").expect("decode"),
        b"user\0example\0\\"
    );
    assert_eq!(decode_byte_string("").expect("decode"), b"");
    for bad in [r"\q", r"\x0", r"\x0g", "\\", "caf\u{e9}", "tab\there"] {
        assert!(decode_byte_string(bad).is_err(), "{bad:?} must be refused");
    }
}

#[test]
fn byte_string_errors_say_what_is_wrong() {
    assert_eq!(decode_byte_string(r"\q"), Err(ByteStringError::Escape('q')));
    assert_eq!(decode_byte_string(r"\x0g"), Err(ByteStringError::HexDigits));
    assert_eq!(decode_byte_string("a\\"), Err(ByteStringError::EndOfString));
    assert_eq!(decode_byte_string("a\tb"), Err(ByteStringError::Character('\t')));
    assert_eq!(ByteStringError::HexDigits.text(), "\\x needs two hex digits");
    assert_eq!(ByteStringError::EndOfString.text(), "unsupported escape at end of string");
    assert_eq!(ByteStringError::Escape('q').text(), "unsupported escape \\q");
    assert_eq!(
        ByteStringError::Character('\t').text(),
        "unsupported character '\\t'; escape bytes as \\xNN"
    );
    assert_eq!(
        ByteStringError::Character('\u{e9}').text(),
        "unsupported character '\u{e9}'; escape bytes as \\xNN"
    );
    assert_eq!(decode_byte_string(r"\xFf\x0A").expect("decode"), b"\xff\x0a");
}

#[test]
fn ready_probes_are_parsed() {
    let mut directory = TestDirectory::new();
    directory.files.push("server.wasm");
    let manifest = directory
        .load(
            r#"
                [service]
                name = "example"
                version = "1"

                [guest]
                module = "server.wasm"
                listen_port = 1234
                ready = { send = '\x00ping', matches = '^ok\x00' }
            "#,
        )
        .expect("load manifest");
    let probe = manifest.guest.ready.expect("a probe");
    assert_eq!(probe.send, b"\x00ping");
    assert!(pattern::is_found(&probe.matches, b"ok\x00v1"));
    assert!(!pattern::is_found(&probe.matches, b"no\x00starting"));
}

#[test]
fn a_probe_may_send_nothing_where_the_server_speaks_first() {
    let mut directory = TestDirectory::new();
    directory.files.push("server.wasm");
    let manifest = directory
        .load(
            r#"
                [service]
                name = "example"
                version = "1"

                [guest]
                module = "server.wasm"
                listen_port = 1234
                ready = { matches = '(?s-u)\A.{2}\x02' }
            "#,
        )
        .expect("load manifest");
    let probe = manifest.guest.ready.expect("a probe");
    assert_eq!(probe.send, b"");
    assert!(pattern::is_found(&probe.matches, b"\x0a\x80\x02hello"));
    assert!(!pattern::is_found(&probe.matches, b"\x0a\x80\x03"));
}

#[test]
fn service_extensions_are_parsed() {
    let mut directory = TestDirectory::new();
    directory.files.push("server.wasm");
    let manifest = directory
        .load(
            r#"
                [service]
                name = "example"
                version = "1"
                extensions = ["ictrobot_shm_v1"]

                [guest]
                module = "server.wasm"
                listen_port = 1234
            "#,
        )
        .expect("load manifest");
    assert_eq!(manifest.service.extensions, ["ictrobot_shm_v1"]);
}

#[test]
fn rejects_mount_sources_that_leave_the_package() {
    let mut directory = TestDirectory::new();
    directory.files.push("server.wasm");
    let error = directory
        .load(
            r#"
                [service]
                name = "example"
                version = "1"

                [prepare]
                fs = { "/usr/share/example" = "../share" }

                [guest]
                module = "server.wasm"
                listen_port = 1234
            "#,
        )
        .expect_err("escape");
    assert!(error.contains("plain relative path"), "{error}");
}

#[test]
fn follows_symlinks_that_stay_inside_the_package() {
    let mut directory = TestDirectory::new();
    directory.files.push("real.wasm");
    directory.links.push(("server.wasm", "/packages/example/real.wasm"));
    let manifest = directory.load(&manifest_with_module("server.wasm")).expect("load manifest");
    assert_eq!(manifest.guest.module, directory.join("server.wasm"));
}

#[test]
fn resolves_all_run_tables_and_mounts() {
    let mut directory = TestDirectory::new();
    directory.dirs.push("share");
    directory.files.extend(["prepare.wasm", "bootstrap.sql", "server.wasm", "client.wasm"]);
    let manifest = directory
        .load(
            r#"
                [service]
                name = "example"
                version = "1"

                [prepare]
                fs = { "/usr/share/example" = "share" }
                module = "prepare.wasm"
                args = ["--prepare"]
                stdin_file = "bootstrap.sql"

                [guest]
                module = "server.wasm"
                args = ["--serve"]
                listen_port = 1234

                [initializer]
                module = "client.wasm"
                args = ["--initialize"]
            "#,
        )
        .expect("load manifest");
    let prepare = manifest.prepare.as_ref().expect("prepare table");
    assert_eq!(
        prepare.fs,
        vec![(UnixPath::from_text("/usr/share/example"), directory.join("share"))]
    );
    assert_eq!(prepare.module, Some(directory.join("prepare.wasm")));
    assert_eq!(prepare.args, ["--prepare"]);
    assert_eq!(prepare.stdin_file, Some(directory.join("bootstrap.sql")));
    assert_eq!(
        prepare.read_stdin(Ok(b"select 1;\n".to_vec())).expect("read stdin"),
        b"select 1;\n"
    );
    assert_eq!(
        prepare.read_stdin(Err("gone".to_string())).expect_err("gone"),
        "failed to read prepare stdin file /packages/example/bootstrap.sql: gone"
    );
    assert_eq!(manifest.guest.module, directory.join("server.wasm"));
    assert_eq!(manifest.guest.args, ["--serve"]);
    let initializer = manifest.initializer.as_ref().expect("initializer");
    assert_eq!(initializer.module, directory.join("client.wasm"));
    assert_eq!(initializer.args, ["--initialize"]);
    assert_eq!(manifest.modules().len(), 3);
    assert_eq!(
        manifest.modules(),
        vec![
            &directory.join("prepare.wasm"),
            &directory.join("server.wasm"),
            &directory.join("client.wasm")
        ]
    );
}

#[test]
fn rejects_absolute_and_missing_modules() {
    let directory = TestDirectory::new();
    let absolute_error =
        directory.load(&manifest_with_module("/server.wasm")).expect_err("absolute path");
    assert!(absolute_error.contains("plain relative path"));
    assert_eq!(
        absolute_error,
        "guest module /server.wasm must be a plain relative path inside the package"
    );

    let missing_error =
        directory.load(&manifest_with_module("missing.wasm")).expect_err("missing path");
    assert!(missing_error.contains("is not a file"));
    assert_eq!(missing_error, "guest module /packages/example/missing.wasm is not a file");
}

fn manifest_with_mount(at: &str, source: &str) -> String {
    format!(
        r#"
            [service]
            name = "example"
            version = "1"

            [prepare]
            fs = {{ "{at}" = "{source}" }}

            [guest]
            module = "server.wasm"
            listen_port = 1234
        "#
    )
}

#[test]
fn rejects_absolute_and_missing_mount_sources() {
    let mut directory = TestDirectory::new();
    directory.files.push("server.wasm");
    let absolute_error = directory
        .load(&manifest_with_mount("/mounted", "/host"))
        .expect_err("absolute mount source should fail");
    assert!(absolute_error.contains("plain relative path"));

    let missing_error = directory
        .load(&manifest_with_mount("/mounted", "missing"))
        .expect_err("missing mount source should fail");
    assert!(missing_error.contains("is not a directory"));
}

#[test]
fn rejects_mounts_that_are_relative_or_climb() {
    let mut directory = TestDirectory::new();
    directory.files.push("server.wasm");
    directory.dirs.push("share");
    let error = directory.load(&manifest_with_mount("mounted", "share")).expect_err("relative");
    assert_eq!(error, "prepare mount path mounted must be absolute");
    let error = directory.load(&manifest_with_mount("/a/../b", "share")).expect_err("climbs");
    assert_eq!(error, "prepare mount path /a/../b must not contain '..'");
    directory.load(&manifest_with_mount("/a/b", "share")).expect("a plain mount");
}

fn manifest_with_stdin(stdin_file: &str) -> String {
    format!(
        r#"
            [service]
            name = "example"
            version = "1"

            [prepare]
            module = "prepare.wasm"
            stdin_file = "{stdin_file}"

            [guest]
            module = "server.wasm"
            listen_port = 1234
        "#
    )
}

#[test]
fn rejects_absolute_and_missing_prepare_stdin_files() {
    let mut directory = TestDirectory::new();
    directory.files.extend(["prepare.wasm", "server.wasm"]);
    let absolute_error = directory
        .load(&manifest_with_stdin("/bootstrap.sql"))
        .expect_err("absolute stdin path should fail");
    assert!(absolute_error.contains("plain relative path"));

    let missing_error = directory
        .load(&manifest_with_stdin("missing.sql"))
        .expect_err("missing stdin path should fail");
    assert!(missing_error.contains("is not a file"));
}

fn simple(name: &str, version: &str, ready: Option<RawReadyProbe>) -> RawManifest {
    RawManifest {
        service: Service {
            name: name.to_string(),
            version: version.to_string(),
            extensions: Vec::new(),
        },
        prepare: None,
        guest: RawGuest {
            module: UnixPath::from_text("server.wasm"),
            args: Vec::new(),
            listen_port: 1234,
            ready,
        },
        initializer: None,
    }
}

fn load_simple(raw: RawManifest, canonical: Result<UnixPath, String>) -> Result<Manifest, ManifestError> {
    let directory = UnixPath::from_text("/p");
    let facts = vec![PathFacts {
        path: UnixPath::from_text("/p/server.wasm"),
        is_file: true,
        is_dir: false,
        canonical,
    }];
    Manifest::load(raw, directory, &UnixPath::from_text("/p"), &facts)
}

#[test]
fn names_and_versions_are_not_empty() {
    let inside = || Ok(UnixPath::from_text("/p/server.wasm"));
    let error = load_simple(simple("", "1", None), inside()).expect_err("no name");
    assert_eq!(error.text(), "service name must not be empty");
    let error = load_simple(simple("a", "", None), inside()).expect_err("no version");
    assert_eq!(error.text(), "service version must not be empty");
    load_simple(simple("a", "1", None), inside()).expect("a manifest");
}

#[test]
fn a_path_that_does_not_resolve_is_refused() {
    let error = load_simple(simple("a", "1", None), Err("gone".to_string())).expect_err("gone");
    assert!(error.text().starts_with("failed to resolve guest module /p/server.wasm"));
    // A directory that merely begins like the package's is another one.
    let error = load_simple(simple("a", "1", None), Ok(UnixPath::from_text("/pp/server.wasm")))
        .expect_err("outside");
    assert!(matches!(error, ManifestError::Outside(_, _)));
}

#[test]
fn probes_are_checked_at_load() {
    let inside = || Ok(UnixPath::from_text("/p/server.wasm"));
    let probe = |send: &str, matches: &str| {
        Some(RawReadyProbe { send: send.to_string(), matches: matches.to_string() })
    };
    let error =
        load_simple(simple("a", "1", probe("\\q", "ok")), inside()).expect_err("bad bytes");
    assert!(matches!(error, ManifestError::Send(ByteStringError::Escape('q'))));
    assert!(error.text().starts_with("invalid ready probe send bytes"));
    let error = load_simple(simple("a", "1", probe("", "(")), inside()).expect_err("bad pattern");
    assert!(matches!(error, ManifestError::Pattern(_)));
    assert!(error.text().starts_with("invalid ready probe pattern"));
    // The bytes are looked at before the pattern.
    let error = load_simple(simple("a", "1", probe("\\q", "(")), inside()).expect_err("bad both");
    assert!(matches!(error, ManifestError::Send(_)));
}

#[test]
fn mounts_stand_in_order_each_place_once() {
    let mut prepare =
        RawPrepare { fs: Vec::new(), module: None, args: Vec::new(), stdin_file: None };
    for (place, source) in [("/b", "1"), ("/a-b", "2"), ("/a/b", "3"), ("/b/", "4")] {
        prepare.mount(UnixPath::from_text(place), UnixPath::from_text(source));
    }
    let mounts: Vec<(String, String)> = prepare
        .fs
        .iter()
        .map(|(place, source)| (place.display(), source.display()))
        .collect();
    let mounts: Vec<(&str, &str)> =
        mounts.iter().map(|(place, source)| (place.as_str(), source.as_str())).collect();
    // A directory stands before its sibling with a longer name, and the same
    // place is mounted once.
    assert_eq!(mounts, [("/a/b", "3"), ("/a-b", "2"), ("/b", "4")]);
}
