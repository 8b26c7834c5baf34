use servicecache::path::UnixPath;
use servicecache::serve::api::Problem;
use servicecache::serve::recipes::{Opened, RecipeReader, RootFacts, Roots};

/// A file as the server finds it when it opens the path.
struct TestFile {
    path: &'static str,
    real: &'static str,
    is_file: bool,
    content: Vec<u8>,
}

fn file(path: &'static str, content: &[u8]) -> TestFile {
    TestFile { path, real: path, is_file: true, content: content.to_vec() }
}

fn roots(dir: &str) -> Roots {
    Roots::new(&vec![RootFacts {
        dir: UnixPath::from_text(dir),
        canonical: Ok(UnixPath::from_text(dir)),
        is_dir: true,
    }])
    .expect("roots")
}

/// Reads the files in order, as the server does.
fn read(
    roots: &Roots,
    files: &[TestFile],
    paths: &[&str],
    max_len: usize,
) -> Result<Vec<u8>, Problem> {
    let mut reader = RecipeReader::new(max_len);
    for path in paths {
        RecipeReader::check_name(path)?;
        let found = files.iter().find(|file| file.path == *path);
        let opened = match found {
            Some(file) => Ok(Opened {
                is_file: file.is_file,
                len: file.content.len() as u64,
                real: Ok(UnixPath::from_text(file.real)),
            }),
            None => Err("No such file or directory (os error 2)".to_string()),
        };
        let remaining = reader.open(roots, path, opened)?;
        let mut content = found.expect("an opened file").content.clone();
        content.truncate(remaining.saturating_add(1));
        reader.append(path, Ok(content))?;
    }
    Ok(reader.recipe)
}

fn slug(result: Result<Vec<u8>, Problem>) -> String {
    let problem = result.expect_err("expected a problem");
    problem
        .kind
        .strip_prefix("urn:servicecache:")
        .expect("a servicecache problem")
        .to_owned()
}

const MAX: usize = 1024;

#[test]
fn files_concatenate_in_order_with_newlines_supplied() {
    let roots = roots("/recipes");
    let files = [
        file("/recipes/schema.sql", b"CREATE TABLE t (x INT);\n"),
        file("/recipes/data.sql", b"INSERT INTO t VALUES (1);"),
        file("/recipes/more.sql", b"-- no newline"),
    ];
    let recipe = read(&roots, &files, &["/recipes/schema.sql", "/recipes/data.sql"], MAX)
        .expect("read");
    assert_eq!(recipe, b"CREATE TABLE t (x INT);\nINSERT INTO t VALUES (1);");

    // A missing terminator gets a newline before the next file, so statements
    // never fuse across a boundary.
    let recipe =
        read(&roots, &files, &["/recipes/more.sql", "/recipes/data.sql"], MAX).expect("read");
    assert_eq!(recipe, b"-- no newline\nINSERT INTO t VALUES (1);");
}

#[test]
fn relative_and_missing_and_irregular_paths_are_invalid() {
    let roots = roots("/recipes");
    let mut device = file("/dev/null", b"");
    device.is_file = false;
    let files = [device];
    assert_eq!(slug(read(&roots, &files, &["schema.sql"], MAX)), "recipe-file-invalid");
    assert_eq!(slug(read(&roots, &files, &["/recipes/absent.sql"], MAX)), "recipe-file-invalid");
    // A device node opens but is not a regular file.
    assert_eq!(slug(read(&roots, &files, &["/dev/null"], MAX)), "recipe-file-invalid");
}

#[test]
fn files_outside_every_root_are_refused() {
    let roots = roots("/recipes");
    let files = [file("/elsewhere/schema.sql", b"SELECT 1;\n")];
    assert_eq!(
        slug(read(&roots, &files, &["/elsewhere/schema.sql"], MAX)),
        "recipe-files-refused"
    );
}

#[test]
fn a_symlink_out_of_the_root_is_refused() {
    let roots = roots("/recipes");
    let mut link = file("/recipes/innocent.sql", b"SELECT 1;\n");
    link.real = "/elsewhere/secret.sql";
    let files = [link];
    // The link sits under the root; what it opens does not.
    assert_eq!(
        slug(read(&roots, &files, &["/recipes/innocent.sql"], MAX)),
        "recipe-files-refused"
    );
}

#[test]
fn a_root_is_a_whole_directory_name() {
    let roots = roots("/recipes");
    let files = [file("/recipes-of-others/a.sql", b"SELECT 1;\n")];
    assert_eq!(
        slug(read(&roots, &files, &["/recipes-of-others/a.sql"], MAX)),
        "recipe-files-refused"
    );
    assert!(roots.contains(&UnixPath::from_text("/recipes/sub/a.sql")));
    assert!(!roots.contains(&UnixPath::from_text("/recipes-of-others/a.sql")));
}

#[test]
fn the_size_cap_holds_across_files() {
    let roots = roots("/recipes");
    let files = [file("/recipes/half.sql", &[b'a'; 600])];
    let half = "/recipes/half.sql";
    assert_eq!(slug(read(&roots, &files, &[half, half], MAX)), "recipe-too-large");
    assert_eq!(read(&roots, &files, &[half], MAX).expect("read").len(), 600);
}

#[test]
fn a_file_that_grows_while_it_is_read_is_too_large() {
    let roots = roots("/recipes");
    let mut reader = RecipeReader::new(4);
    let opened = Opened {
        is_file: true,
        len: 3,
        real: Ok(UnixPath::from_text("/recipes/a.sql")),
    };
    let remaining = reader.open(&roots, "/recipes/a.sql", Ok(opened)).expect("opened");
    assert_eq!(remaining, 4);
    let problem = reader
        .append("/recipes/a.sql", Ok(b"12345".to_vec()))
        .expect_err("one byte too many");
    assert!(problem.is("recipe-too-large"));
    assert_eq!(problem.detail.as_deref(), Some("the recipe is larger than 4 bytes"));
}

#[test]
fn a_file_that_cannot_be_read_is_invalid() {
    let roots = roots("/recipes");
    let mut reader = RecipeReader::new(4);
    let opened = |real| Opened { is_file: true, len: 3, real };
    let problem = reader
        .open(&roots, "/recipes/a.sql", Ok(opened(Err("gone".to_string()))))
        .expect_err("the descriptor says nothing");
    assert!(problem.is("recipe-file-invalid"));
    reader
        .open(&roots, "/recipes/a.sql", Ok(opened(Ok(UnixPath::from_text("/recipes/a.sql")))))
        .expect("opened");
    let problem =
        reader.append("/recipes/a.sql", Err("broken".to_string())).expect_err("not read");
    assert!(problem.is("recipe-file-invalid"));
    assert_eq!(problem.detail.as_deref(), Some("/recipes/a.sql: broken"));
}

#[test]
fn a_missing_root_stops_the_server() {
    let absent = |canonical, is_dir| {
        Roots::new(&vec![RootFacts { dir: UnixPath::from_text("/absent"), canonical, is_dir }])
    };
    assert!(absent(Err("No such file or directory".to_string()), false).is_err());
    assert_eq!(
        absent(Ok(UnixPath::from_text("/absent")), false).expect_err("a file"),
        "--recipe-root /absent is not a directory"
    );
    assert!(!absent(Ok(UnixPath::from_text("/absent")), true).expect("a root").is_empty());
    assert!(Roots::new(&Vec::new()).expect("no roots").is_empty());
}
