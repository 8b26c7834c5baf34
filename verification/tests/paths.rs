use servicecache::bytes;
use servicecache::path::{Component, UnixPath};
use servicecache::pattern;
use servicecache::runtime::{
    read_only_mounts, run_status, OpenMode, Operation, RunRequest, StartResult,
};
use servicecache::manifest::Prepare;
use servicecache::text;

fn p(s: &str) -> UnixPath {
    UnixPath::from_text(s)
}

fn name(s: &str) -> Component {
    Component::Name(s.as_bytes().to_vec())
}

#[test]
fn paths_have_components() {
    assert_eq!(p("/a//b/./c/").components(), [Component::Root, name("a"), name("b"), name("c")]);
    assert_eq!(p("./a/..").components(), [Component::Current, name("a"), Component::Parent]);
    assert!(p("").components().is_empty());
    assert!(p("a/./b").is_plain());
    assert!(p(".").is_plain());
    assert!(!p("a/../b").is_plain());
    assert!(p("a/../b").climbs());
    assert!(!p("/a").is_plain());
    assert!(p("/a").is_absolute());
    assert_eq!(p("/a/b").file_text().as_deref(), Some("b"));
    assert_eq!(p("/a/..").file_name(), None);
}

#[test]
fn paths_join_and_lie_within() {
    assert_eq!(p("/a").join(&p("b")), p("/a/b"));
    assert_eq!(p("/a/").join(&p("b")), p("/a/b"));
    assert_eq!(p("/a").join(&p("/b")), p("/b"));
    assert_eq!(p("").join(&p("b")), p("b"));
    assert!(p("/a/b").is_within(&p("/a")));
    assert!(!p("/ab").is_within(&p("/a")));
    assert!(p("/a/b").is_before(&p("/a-b")));
    assert!(p("/a").is_same(&p("/a")));
    assert_eq!(UnixPath::new(b"/a\xff".to_vec()).display(), "/a\u{fffd}");
}

#[test]
fn patterns_are_searched_in_bytes() {
    assert!(pattern::is_found(r"(?-u)\xff$", b"a\xff"));
    assert!(!pattern::is_found("^b", b"ab"));
    // A pattern that does not compile is found nowhere.
    assert!(!pattern::is_found("(", b"("));
}

#[test]
fn texts_are_built_and_taken_apart() {
    assert_eq!(text::decimal_text(0), "0");
    assert_eq!(text::decimal_text(u64::MAX), "18446744073709551615");
    let mut out = String::new();
    text::push_signed(&mut out, i32::MIN);
    assert_eq!(out, "-2147483648");
    assert_eq!(text::hex_text(&[0, 0xab]), "00ab");
    assert_eq!(text::replace("{a}{a}b", "{a}", "x{a}"), "x{a}x{a}b");
    assert_eq!(text::join(&vec!["a".to_string(), "b".to_string()], ", "), "a, b");
    let characters = text::characters("  7f ");
    assert_eq!(text::parse_usize(text::trim(&characters), 16), Some(0x7f));
    assert_eq!(text::parse_usize(&['g'], 16), None);
    assert_eq!(text::parse_usize(&[], 10), None);
    assert_eq!(text::hex_value('F'), Some(15));
    assert_eq!(text::text_of(text::word(&text::characters("ab cd"))), "ab");
    let lines = text::lines_of(&text::characters("a\r\nb\n"));
    assert_eq!(lines, vec![vec!['a'], vec!['b']]);
}

#[test]
fn bytes_are_ordered_as_words_are() {
    assert!(bytes::is_less(b"a", b"ab"));
    assert!(bytes::is_less(b"ab", b"b"));
    assert!(!bytes::is_less(b"a", b"a"));
    assert!(bytes::is_same(b"a", b"a"));
    assert_eq!(bytes::find_from(b"a:b", 0, b':'), 1);
}

#[test]
fn mounts_are_read_only() {
    let prepare = Prepare {
        fs: vec![(p("/mounted"), p("/host/dir"))],
        module: None,
        args: Vec::new(),
        stdin_file: None,
    };
    let mounts = read_only_mounts(Some(&prepare));
    assert_eq!(mounts.len(), 1);
    assert_eq!(mounts[0].guest, p("/mounted"));
    assert_eq!(mounts[0].host, p("/host/dir"));
    assert!(read_only_mounts(None).is_empty());
    let reading = OpenMode {
        read: true,
        write: false,
        create_new: false,
        create: false,
        append: false,
        truncate: false,
    };
    assert!(reading.is_permitted());
    assert!(!OpenMode { write: true, ..reading }.is_permitted());
    assert!(!OpenMode { truncate: true, ..reading }.is_permitted());
    assert!(Operation::Metadata.is_permitted());
    assert!(Operation::ReadDirectory.is_permitted());
    assert!(!Operation::RemoveFile.is_permitted());
    assert!(!Operation::Rename.is_permitted());
    assert_eq!(run_status(StartResult::Returned), Some(0));
    assert_eq!(run_status(StartResult::Exited(3)), Some(3));
    assert_eq!(run_status(StartResult::Failed), None);
    let module = UnixPath::from_text("/s/tool.wasm");
    let (args, mounts) = (Vec::new(), Vec::new());
    let request = RunRequest { module: &module, args: &args, stdin: b"", mounts: &mounts };
    assert_eq!(request.program_name(), "tool.wasm");
}
