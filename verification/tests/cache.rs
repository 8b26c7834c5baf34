use servicecache::cache::{
    clean, clean_report, directory, engine_key, LoadOutcome, LoadStep, ModuleCache, Removal,
};
use servicecache::path::UnixPath;

fn p(s: &str) -> UnixPath {
    UnixPath::from_text(s)
}

#[test]
fn directory_prefers_flag_then_environment() {
    let flag = p("/flag");
    let env = p("/env");
    let home = p("/home/user");
    assert_eq!(directory(Some(&flag), Some(&env), None, Some(&home)), Some(p("/flag")));
    assert_eq!(directory(None, Some(&env), None, Some(&home)), Some(p("/env")));
    let default = directory(None, Some(&p("")), None, Some(&home)).expect("a default");
    assert_eq!(default.file_name().as_deref(), Some(b"servicecache".as_slice()));
    assert_eq!(default, p("/home/user/.cache/servicecache"));
}

#[test]
fn the_cache_home_goes_before_the_home_directory() {
    let home = p("/home/user");
    assert_eq!(
        directory(None, None, Some(&p("/xdg")), Some(&home)),
        Some(p("/xdg/servicecache"))
    );
    assert_eq!(
        directory(None, None, Some(&p("")), Some(&home)),
        Some(p("/home/user/.cache/servicecache"))
    );
    assert_eq!(directory(None, None, None, None), None);
    assert_eq!(directory(None, None, None, Some(&p(""))), None);
}

/// Loads a module from a cache in which an artifact may stand, and may appear
/// while the lock is waited for; counts the compiles.
fn load(mut stored: bool, appears: bool) -> (usize, bool) {
    let mut step = LoadStep::first();
    let mut compiles = 0;
    loop {
        let outcome = match step {
            LoadStep::Look { .. } => {
                if stored {
                    LoadOutcome::Success
                } else {
                    LoadOutcome::Absent
                }
            }
            LoadStep::Lock => {
                stored = stored || appears;
                LoadOutcome::Success
            }
            LoadStep::Compile => {
                compiles += 1;
                LoadOutcome::Success
            }
            LoadStep::Publish => {
                stored = true;
                LoadOutcome::Success
            }
            LoadStep::Done => return (compiles, stored),
            _ => LoadOutcome::Success,
        };
        step = step.next(outcome);
    }
}

#[test]
fn a_second_load_is_a_hit() {
    assert_eq!(load(false, false), (1, true));
    assert_eq!(load(true, false), (0, true));
}

#[test]
fn a_miss_that_waits_for_another_compiles_nothing() {
    assert_eq!(load(false, true), (0, true));
}

#[test]
fn clean_says_whether_there_was_anything() {
    let dir = p("/cache");
    assert_eq!(clean(&dir, Removal::Removed), Ok(true));
    assert_eq!(clean(&dir, Removal::NotFound), Ok(false));
    assert_eq!(
        clean(&dir, Removal::Failed("denied".to_string())),
        Err("failed to remove /cache: denied".to_string())
    );
    assert_eq!(clean_report(&dir, true), "removed /cache");
    assert_eq!(clean_report(&dir, false), "nothing to remove at /cache");
}

#[test]
fn entries_are_keyed_by_engine_and_content() {
    let cache = ModuleCache::new(p("/cache"));
    assert_eq!(cache.dir(), &p("/cache"));
    let key = engine_key("Cranelift-O3", "7", &vec!["AVX2".to_string(), "sse4.2".to_string()]);
    let paths = cache.entry(&key, b"abc", 42);
    let shown = paths.entry.display();
    assert!(
        shown.contains("ba7816bf8f01cfea414140de5dae2223b00361a396177a9cb410ff61f20015ad"),
        "{shown}"
    );
    assert!(paths.entry.is_within(&paths.directory));
    assert!(paths.lock.is_within(&paths.directory));
    assert!(paths.partial.is_within(&paths.directory));
    assert!(paths.directory.is_within(&p("/cache/modules")));
    assert!(paths.partial.display().contains("42"));
    let other = cache.entry(&key, b"abd", 42);
    assert_ne!(other.entry, paths.entry);
    assert_eq!(key, "Cranelift-O3-7-cpu934093f0");
    // The features' names are compared in lower case.
    let lower = engine_key("Cranelift-O3", "7", &vec!["avx2".to_string(), "sse4.2".to_string()]);
    assert_eq!(key, lower);
    assert_eq!(
        paths.partial.display(),
        format!(
            "/cache/modules/Cranelift-O3-7-cpu934093f0/{}.bin.tmp-42",
            "ba7816bf8f01cfea414140de5dae2223b00361a396177a9cb410ff61f20015ad"
        )
    );
}

#[test]
fn failures_name_the_step_and_the_module() {
    let cache = ModuleCache::new(p("/cache"));
    let paths = cache.entry("engine", b"abc", 1);
    let said = LoadStep::Compile.failure(&p("/m.wasm"), &paths, "bad magic");
    assert!(said.contains("/m.wasm"), "{said}");
    assert!(said.contains("bad magic"), "{said}");
}
