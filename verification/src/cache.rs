//! Compiled modules, cached on disk.
//!
//! An entry is keyed by the module's content and by the engine that compiled
//! it (compiler and optimisation level, artifact format, the host's CPU
//! features), so nothing is ever stale: a different module, engine or machine
//! is a different entry, and an artifact that no longer loads is recompiled
//! and replaced. Processes missing on the same entry take turns: the first
//! compiles and stores it, the rest wait for it.

use crate::digest;
use crate::path;
use crate::path::UnixPath;
use crate::text;
use vstd::prelude::*;

verus! {

/// What is said where no cache directory is named.
pub const NO_DIRECTORY: &'static str =
    "no cache directory: set --cache-dir, SERVICECACHE_CACHE_DIR or HOME";

/// A path that is set to something.
pub open spec fn set(value: Option<&UnixPath>) -> bool {
    value is Some && (value->0)@.len() > 0
}

/// The path that `s` spells.
pub open spec fn spelled(s: Seq<char>) -> Seq<u8> {
    vstd::utf8::encode_utf8(s)
}

/// Whether an environment variable is set to something.
fn is_set(value: &Option<&UnixPath>) -> (r: bool)
    ensures
        r == set(*value),
{
    match value {
        Some(value) => value.bytes.len() > 0,
        None => false,
    }
}

/// The cache directory: from the flag, else from the environment's own
/// variable, else the default under `XDG_CACHE_HOME`, else under the home
/// directory. A variable that is set to nothing counts as not set. `None`
/// where nothing names a directory.
pub fn directory(
    flag: Option<&UnixPath>,
    environment: Option<&UnixPath>,
    xdg_cache_home: Option<&UnixPath>,
    home: Option<&UnixPath>,
) -> (r: Option<UnixPath>)
    ensures
        if flag is Some {
            r is Some && (r->0)@ == (flag->0)@
        } else if set(environment) {
            r is Some && (r->0)@ == (environment->0)@
        } else if set(xdg_cache_home) {
            r is Some && (r->0)@ == path::joined((xdg_cache_home->0)@, spelled("servicecache"@))
        } else if set(home) {
            r is Some && (r->0)@ == path::joined(
                path::joined((home->0)@, spelled(".cache"@)),
                spelled("servicecache"@),
            )
        } else {
            r is None
        },
{
    if let Some(dir) = flag {
        return Some(dir.clone());
    }
    if is_set(&environment) {
        if let Some(dir) = environment {
            return Some(dir.clone());
        }
    }
    let name = UnixPath::from_text("servicecache");
    if is_set(&xdg_cache_home) {
        if let Some(xdg) = xdg_cache_home {
            return Some(xdg.join(&name));
        }
    }
    if is_set(&home) {
        if let Some(home) = home {
            return Some(home.join(&UnixPath::from_text(".cache")).join(&name));
        }
    }
    None
}

/// What removing the cache directory came to.
#[derive(Debug)]
pub enum Removal {
    Removed,
    /// There was none.
    NotFound,
    Failed(String),
}

/// Whether the cache directory was removed; `false` where there was none.
pub fn clean(dir: &UnixPath, removal: Removal) -> (r: Result<bool, String>)
    ensures
        match removal {
            Removal::Removed => r == Ok::<bool, String>(true),
            Removal::NotFound => r == Ok::<bool, String>(false),
            Removal::Failed(error) => r is Err && (r->Err_0)@ == "failed to remove "@ + path::lossy(
                dir@,
            ) + ": "@ + error@,
        },
{
    match removal {
        Removal::Removed => Ok(true),
        Removal::NotFound => Ok(false),
        Removal::Failed(error) => {
            let mut out = "failed to remove ".to_owned();
            out.append(dir.display().as_str());
            out.append(": ");
            out.append(error.as_str());
            Err(out)
        },
    }
}

/// What cleaning the cache reports.
pub fn clean_report(dir: &UnixPath, removed: bool) -> (r: String)
    ensures
        r@ == if removed {
            "removed "@ + path::lossy(dir@)
        } else {
            "nothing to remove at "@ + path::lossy(dir@)
        },
{
    let mut out = if removed {
        "removed ".to_owned()
    } else {
        "nothing to remove at ".to_owned()
    };
    out.append(dir.display().as_str());
    out
}

/// What `str::to_lowercase` makes of a text.
pub uninterp spec fn lowercase(s: Seq<char>) -> Seq<char>;

/// `str::to_lowercase` of std, whose text is [`lowercase`].
#[verifier::external_body]
fn to_lowercase(s: &str) -> (r: String)
    ensures
        r@ == lowercase(s@),
{
    s.to_lowercase()
}

/// The texts in lower case.
pub open spec fn lowercased(v: Seq<Seq<char>>) -> Seq<Seq<char>> {
    Seq::new(v.len(), |i: int| lowercase(v[i]))
}

/// What the compiled form depends on besides the module: the engine's
/// compiler and settings, its artifact format, and the CPU features the code
/// was generated for, as the start of a digest of their list, to keep the
/// name short.
pub open spec fn engine_key_text(id: Seq<char>, format: Seq<char>, features: Seq<Seq<char>>) -> Seq<
    char,
> {
    let list = text::joined(lowercased(features), "+"@);
    id + "-"@ + format + "-cpu"@ + text::hex(
        digest::sha256(vstd::utf8::encode_utf8(list)).take(4),
    )
}

/// The name of an engine's directory in the cache.
pub fn engine_key(id: &str, format: &str, features: &Vec<String>) -> (r: String)
    ensures
        r@ == engine_key_text(id@, format@, text::texts(features@)),
{
    let mut lower: Vec<String> = Vec::new();
    let ghost all = lowercased(text::texts(features@));
    let mut i: usize = 0;
    proof {
        assert(text::texts(lower@) =~= all.take(0));
    }
    while i < features.len()
        invariant
            i <= features@.len(),
            all == lowercased(text::texts(features@)),
            text::texts(lower@) == all.take(i as int),
        decreases features@.len() - i,
    {
        let ghost before = text::texts(lower@);
        lower.push(to_lowercase(features[i].as_str()));
        proof {
            assert(text::texts(lower@) =~= before.push(all[i as int]));
            assert(all.take(i + 1) =~= all.take(i as int).push(all[i as int]));
        }
        i = i + 1;
    }
    proof {
        assert(all.take(features@.len() as int) =~= all);
    }
    let list = text::join(&lower, "+");
    let digest = digest::digest(list.as_str().as_bytes());
    let start = [digest[0], digest[1], digest[2], digest[3]];
    proof {
        assert(start@ =~= digest@.take(4));
    }
    let mut out = id.to_owned();
    out.append("-");
    out.append(format);
    out.append("-cpu");
    out.append(text::hex_text(&start).as_str());
    out
}

/// Compiled modules under one cache directory.
#[derive(Debug)]
pub struct ModuleCache {
    pub dir: UnixPath,
}

/// The paths of an entry.
#[derive(Debug)]
pub struct EntryPaths {
    /// The directory of everything its engine compiled.
    pub directory: UnixPath,
    /// The artifact.
    pub entry: UnixPath,
    /// The file whose lock the entry's compile is done under.
    pub lock: UnixPath,
    /// What the artifact is written to before it is moved into place.
    pub partial: UnixPath,
}

/// The directory of everything an engine compiled.
pub open spec fn engine_directory(dir: Seq<u8>, engine: Seq<char>) -> Seq<u8> {
    path::joined(path::joined(dir, spelled("modules"@)), spelled(engine))
}

/// A file of the entry for a module with these bytes.
pub open spec fn entry_file(dir: Seq<u8>, engine: Seq<char>, module: Seq<u8>, suffix: Seq<char>) -> Seq<
    u8,
> {
    path::joined(
        engine_directory(dir, engine),
        spelled(text::hex(digest::sha256(module)) + suffix),
    )
}

impl ModuleCache {
    /// The cache under `dir`.
    pub fn new(dir: UnixPath) -> (r: Self)
        ensures
            r.dir == dir,
    {
        ModuleCache { dir }
    }

    /// The cache directory.
    pub fn dir(&self) -> (r: &UnixPath)
        ensures
            *r == self.dir,
    {
        &self.dir
    }

    /// The paths of the entry for a module with these bytes, for a process
    /// with this id.
    pub fn entry(&self, engine: &str, module: &[u8], pid: u32) -> (r: EntryPaths)
        ensures
            r.directory@ == engine_directory(self.dir@, engine@),
            r.entry@ == entry_file(self.dir@, engine@, module@, ".bin"@),
            r.lock@ == entry_file(self.dir@, engine@, module@, ".lock"@),
            r.partial@ == entry_file(
                self.dir@,
                engine@,
                module@,
                ".bin.tmp-"@ + text::decimal(pid as nat),
            ),
    {
        let directory = self.dir.join(&UnixPath::from_text("modules")).join(
            &UnixPath::from_text(engine),
        );
        let name = digest::digest_hex(module);
        let mut entry_name = name.clone();
        entry_name.append(".bin");
        let mut lock_name = name.clone();
        lock_name.append(".lock");
        let mut suffix = ".bin.tmp-".to_owned();
        text::push_decimal(&mut suffix, pid as u64);
        let mut partial_name = name;
        partial_name.append(suffix.as_str());
        let entry = directory.join(&UnixPath::from_text(entry_name.as_str()));
        let lock = directory.join(&UnixPath::from_text(lock_name.as_str()));
        let partial = directory.join(&UnixPath::from_text(partial_name.as_str()));
        EntryPaths { directory, entry, lock, partial }
    }
}

/// What loading a module does next.
#[derive(Clone, Copy, Debug, PartialEq, Eq, Structural)]
pub enum LoadStep {
    /// Look for the artifact; `waited` once the entry's lock is held.
    Look { waited: bool },
    CreateDirectory,
    OpenLock,
    /// Wait for the entry's lock. It lasts until the load is done.
    Lock,
    Compile,
    /// Write the artifact whole under another name.
    Store,
    /// Move it into place: a reader sees either no artifact or a complete
    /// one.
    Publish,
    /// The module is there.
    Done,
}

/// What a step came to.
#[derive(Clone, Copy, Debug, PartialEq, Eq, Structural)]
pub enum LoadOutcome {
    /// The step is done; for a look, there is an artifact and it loads.
    Success,
    /// There is no artifact, or it does not load and counts as absent.
    Absent,
}

/// What comes after a step.
pub open spec fn next_step(step: LoadStep, outcome: LoadOutcome) -> LoadStep {
    match step {
        LoadStep::Look { waited } => match outcome {
            LoadOutcome::Success => LoadStep::Done,
            LoadOutcome::Absent => if waited {
                LoadStep::Compile
            } else {
                LoadStep::CreateDirectory
            },
        },
        LoadStep::CreateDirectory => LoadStep::OpenLock,
        LoadStep::OpenLock => LoadStep::Lock,
        LoadStep::Lock => LoadStep::Look { waited: true },
        LoadStep::Compile => LoadStep::Store,
        LoadStep::Store => LoadStep::Publish,
        LoadStep::Publish => LoadStep::Done,
        LoadStep::Done => LoadStep::Done,
    }
}

impl LoadStep {
    /// The first step of a load.
    pub fn first() -> (r: LoadStep)
        ensures
            r == (LoadStep::Look { waited: false }),
    {
        LoadStep::Look { waited: false }
    }

    /// What comes after this step.
    pub fn next(self, outcome: LoadOutcome) -> (r: LoadStep)
        ensures
            r == next_step(self, outcome),
    {
        match self {
            LoadStep::Look { waited } => match outcome {
                LoadOutcome::Success => LoadStep::Done,
                LoadOutcome::Absent => if waited {
                    LoadStep::Compile
                } else {
                    LoadStep::CreateDirectory
                },
            },
            LoadStep::CreateDirectory => LoadStep::OpenLock,
            LoadStep::OpenLock => LoadStep::Lock,
            LoadStep::Lock => LoadStep::Look { waited: true },
            LoadStep::Compile => LoadStep::Store,
            LoadStep::Store => LoadStep::Publish,
            LoadStep::Publish => LoadStep::Done,
            LoadStep::Done => LoadStep::Done,
        }
    }

    /// How the step failed, in words: which of the module's and the entry's
    /// paths it was about.
    pub fn failure(self, module: &UnixPath, paths: &EntryPaths, error: &str) -> (r: String)
        ensures
            r@ == load_failure(
                self,
                module@,
                paths.directory@,
                paths.lock@,
                paths.partial@,
            ) + ": "@ + error@,
    {
        let mut out = match self {
            LoadStep::Look { .. } => {
                let mut out = "failed to load ".to_owned();
                out.append(module.display().as_str());
                out
            },
            LoadStep::CreateDirectory => {
                let mut out = "failed to create ".to_owned();
                out.append(paths.directory.display().as_str());
                out
            },
            LoadStep::OpenLock => {
                let mut out = "failed to open ".to_owned();
                out.append(paths.lock.display().as_str());
                out
            },
            LoadStep::Lock => {
                let mut out = "failed to lock ".to_owned();
                out.append(paths.lock.display().as_str());
                out
            },
            LoadStep::Compile => {
                let mut out = "failed to compile ".to_owned();
                out.append(module.display().as_str());
                out
            },
            LoadStep::Store => {
                let mut out = "failed to write ".to_owned();
                out.append(paths.partial.display().as_str());
                out
            },
            LoadStep::Publish => {
                let mut out = "failed to move ".to_owned();
                out.append(paths.partial.display().as_str());
                out.append(" into place");
                out
            },
            LoadStep::Done => {
                let mut out = "failed to load ".to_owned();
                out.append(module.display().as_str());
                out
            },
        };
        out.append(": ");
        out.append(error);
        out
    }
}

/// What a failed step was about, in words.
pub open spec fn load_failure(
    step: LoadStep,
    module: Seq<u8>,
    directory: Seq<u8>,
    lock: Seq<u8>,
    partial: Seq<u8>,
) -> Seq<char> {
    match step {
        LoadStep::Look { .. } => "failed to load "@ + path::lossy(module),
        LoadStep::CreateDirectory => "failed to create "@ + path::lossy(directory),
        LoadStep::OpenLock => "failed to open "@ + path::lossy(lock),
        LoadStep::Lock => "failed to lock "@ + path::lossy(lock),
        LoadStep::Compile => "failed to compile "@ + path::lossy(module),
        LoadStep::Store => "failed to write "@ + path::lossy(partial),
        LoadStep::Publish => "failed to move "@ + path::lossy(partial) + " into place"@,
        LoadStep::Done => "failed to load "@ + path::lossy(module),
    }
}

/// A module is compiled only under the entry's lock and only where, looked
/// for under it, the artifact is still absent.
pub proof fn law_compiles_only_what_is_absent_under_the_lock(step: LoadStep, outcome: LoadOutcome)
    requires
        next_step(step, outcome) == LoadStep::Compile,
    ensures
        step == (LoadStep::Look { waited: true }),
        outcome == LoadOutcome::Absent,
{
}

/// The look under the lock comes right after taking the lock.
pub proof fn law_the_second_look_is_under_the_lock(step: LoadStep, outcome: LoadOutcome)
    requires
        next_step(step, outcome) == (LoadStep::Look { waited: true }),
    ensures
        step == LoadStep::Lock,
{
}

/// A load ends with an artifact that was found, or with one that was written
/// whole before it was moved into place.
pub proof fn law_only_whole_artifacts_are_published(
    step: LoadStep,
    outcome: LoadOutcome,
    before: LoadStep,
    earlier: LoadOutcome,
)
    requires
        step != LoadStep::Done,
        next_step(step, outcome) == LoadStep::Done,
        next_step(before, earlier) == step,
    ensures
        (step is Look && outcome == LoadOutcome::Success) || (step == LoadStep::Publish && before
            == LoadStep::Store),
{
}

/// How a whole load ended.
pub struct Loaded {
    /// Whether the module is there.
    pub ok: bool,
    /// Whether the entry holds an artifact that loads.
    pub stored: bool,
    /// How often the module was compiled.
    pub compiles: int,
}

/// How many steps may still come.
pub open spec fn steps_left(step: LoadStep) -> nat {
    match step {
        LoadStep::Look { waited } => if waited {
            4
        } else {
            8
        },
        LoadStep::CreateDirectory => 7,
        LoadStep::OpenLock => 6,
        LoadStep::Lock => 5,
        LoadStep::Compile => 3,
        LoadStep::Store => 2,
        LoadStep::Publish => 1,
        LoadStep::Done => 0,
    }
}

/// How a load ends that is at a step, while nobody else uses the cache:
/// `stored` is whether the entry holds an artifact that loads, `fails` the
/// step that cannot be carried out, if there is one. The artifact is there
/// once it is moved into place.
pub open spec fn loads(step: LoadStep, stored: bool, fails: Option<LoadStep>) -> Loaded
    decreases steps_left(step),
{
    let compiles = if step == LoadStep::Compile {
        1int
    } else {
        0
    };
    if step == LoadStep::Done {
        Loaded { ok: true, stored, compiles }
    } else if fails == Some(step) {
        Loaded { ok: false, stored, compiles }
    } else {
        let outcome = if step is Look && !stored {
            LoadOutcome::Absent
        } else {
            LoadOutcome::Success
        };
        let rest = loads(next_step(step, outcome), stored || step == LoadStep::Publish, fails);
        Loaded { compiles: compiles + rest.compiles, ..rest }
    }
}

/// A whole load never compiles where the artifact is stored, and else compiles
/// at most once; one that succeeds leaves the artifact stored, so no later load
/// of the same entry compiles; one that cannot compile stores nothing. Looking
/// for the artifact cannot fail: one that does not load counts as absent.
pub proof fn law_a_load_compiles_at_most_once(
    stored: bool,
    fails: Option<LoadStep>,
    later: Option<LoadStep>,
)
    requires
        !(fails matches Some(step) && step is Look),
        !(later matches Some(step) && step is Look),
    ensures
        ({
            let first = LoadStep::Look { waited: false };
            let load = loads(first, stored, fails);
            &&& load.compiles <= 1
            &&& stored ==> load.ok && load.stored && load.compiles == 0
            &&& load.ok ==> load.stored
            &&& !stored && fails == Some(LoadStep::Compile) ==> !load.ok && !load.stored
            &&& !stored && fails is None ==> load.ok && load.compiles == 1
            &&& load.ok ==> loads(first, load.stored, later).compiles == 0
        }),
{
    reveal_with_fuel(loads, 9);
}

/// What was spelled differently is different bytes.
proof fn lemma_spelled(a: Seq<char>, b: Seq<char>)
    requires
        spelled(a) == spelled(b),
    ensures
        a == b,
{
    vstd::utf8::encode_utf8_decode_utf8(a);
    vstd::utf8::encode_utf8_decode_utf8(b);
}

/// The digest of a module and an ending make a file name.
proof fn lemma_entry_name(module: Seq<u8>, suffix: Seq<char>)
    requires
        suffix.len() > 2,
        suffix[0] == '.',
        vstd::utf8::is_ascii_chars(suffix),
        !suffix.contains('/'),
    ensures
        path::is_name(spelled(text::hex(digest::sha256(module)) + suffix)),
{
    let name = text::hex(digest::sha256(module)) + suffix;
    let digits = digest::sha256(module);
    assert forall|i: int| 0 <= i < name.len() implies '\0' <= #[trigger] name[i] <= '\u{7f}'
        && name[i] != '/' by {
        if i < text::hex(digits).len() {
            text::law_hex_reads_back(digits, 0);
            assert(name[i] == text::hex(digits)[i]);
        } else {
            let k = i - text::hex(digits).len();
            assert(name[i] == suffix[k]);
            assert(suffix.contains(suffix[k]));
        }
    }
    vstd::utf8::is_ascii_chars_encode_utf8(name);
    let bytes = spelled(name);
    assert forall|i: int| 0 <= i < bytes.len() implies bytes[i] != 47 by {
        assert(name[i] as u8 == bytes[i]);
        assert(name[i] != '/');
    }
    assert(bytes.len() > 2);
}

/// The suffixes of an entry's files.
proof fn lemma_suffixes(pid: nat)
    ensures
        ({
            let partial = ".bin.tmp-"@ + text::decimal(pid);
            &&& ".bin"@.len() == 4
            &&& ".lock"@.len() == 5
            &&& partial.len() > 9
            &&& ".bin"@[0] == '.' && ".lock"@[0] == '.' && partial[0] == '.'
            &&& vstd::utf8::is_ascii_chars(".bin"@)
            &&& vstd::utf8::is_ascii_chars(".lock"@)
            &&& vstd::utf8::is_ascii_chars(partial)
            &&& !".bin"@.contains('/') && !".lock"@.contains('/') && !partial.contains('/')
        }),
{
    reveal_strlit(".bin");
    reveal_strlit(".lock");
    reveal_strlit(".bin.tmp-");
    text::lemma_decimal_digits(pid);
    let start = ".bin.tmp-"@;
    let partial = start + text::decimal(pid);
    assert forall|i: int| 0 <= i < partial.len() implies '\0' <= #[trigger] partial[i] <= '\u{7f}'
        && partial[i] != '/' by {
        if i >= start.len() {
            assert(partial[i] == text::decimal(pid)[i - start.len()]);
        }
    }
}

/// An entry is for one module and one engine, over all of the module's bytes,
/// as far as a digest tells modules apart: two modules share a file only where
/// their digests are the same, and two engines share none.
pub proof fn law_an_entry_is_for_one_module_and_engine(
    dir: Seq<u8>,
    engine: Seq<char>,
    other: Seq<char>,
    a: Seq<u8>,
    b: Seq<u8>,
)
    requires
        dir.len() > 0,
        path::is_name(spelled(engine)),
        path::is_name(spelled(other)),
    ensures
        entry_file(dir, engine, a, ".bin"@) == entry_file(dir, other, b, ".bin"@)
            ==> digest::sha256(a) == digest::sha256(b) && engine == other,
        entry_file(dir, engine, a, ".lock"@) == entry_file(dir, other, b, ".lock"@)
            ==> digest::sha256(a) == digest::sha256(b) && engine == other,
        a == b && engine == other ==> entry_file(dir, engine, a, ".bin"@) == entry_file(
            dir,
            other,
            b,
            ".bin"@,
        ),
        path::is_within(entry_file(dir, engine, a, ".bin"@), dir),
        path::is_within(entry_file(dir, engine, a, ".bin"@), engine_directory(dir, engine)),
{
    lemma_suffixes(0);
    if entry_file(dir, engine, a, ".bin"@) == entry_file(dir, other, b, ".bin"@) {
        lemma_same_entry(dir, engine, other, a, b, ".bin"@, ".bin"@);
    }
    if entry_file(dir, engine, a, ".lock"@) == entry_file(dir, other, b, ".lock"@) {
        lemma_same_entry(dir, engine, other, a, b, ".lock"@, ".lock"@);
    }
    lemma_entry_parts(dir, engine, a, ".bin"@);
    lemma_engine_parts(dir, engine);
    let own = engine_directory(dir, engine);
    let file = entry_file(dir, engine, a, ".bin"@);
    assert(path::components(dir) =~= path::components(file).subrange(
        0,
        path::components(dir).len() as int,
    ));
    assert(path::components(own) =~= path::components(file).subrange(
        0,
        path::components(own).len() as int,
    ));
}

/// The files of one entry are three: the artifact, its lock, and what is
/// written before it is whole, which differs from process to process.
pub proof fn law_the_files_of_an_entry_differ(
    dir: Seq<u8>,
    engine: Seq<char>,
    module: Seq<u8>,
    p: nat,
    q: nat,
)
    requires
        dir.len() > 0,
        path::is_name(spelled(engine)),
    ensures
        ({
            let entry = entry_file(dir, engine, module, ".bin"@);
            let lock = entry_file(dir, engine, module, ".lock"@);
            let mine = entry_file(dir, engine, module, ".bin.tmp-"@ + text::decimal(p));
            let yours = entry_file(dir, engine, module, ".bin.tmp-"@ + text::decimal(q));
            &&& entry != lock
            &&& entry != mine
            &&& lock != mine
            &&& mine == yours ==> p == q
        }),
{
    lemma_suffixes(p);
    lemma_suffixes(q);
    let tmp = ".bin.tmp-"@;
    let x = tmp + text::decimal(p);
    let y = tmp + text::decimal(q);
    if entry_file(dir, engine, module, ".bin"@) == entry_file(dir, engine, module, ".lock"@) {
        lemma_same_entry(dir, engine, engine, module, module, ".bin"@, ".lock"@);
    }
    if entry_file(dir, engine, module, ".bin"@) == entry_file(dir, engine, module, x) {
        lemma_same_entry(dir, engine, engine, module, module, ".bin"@, x);
    }
    if entry_file(dir, engine, module, ".lock"@) == entry_file(dir, engine, module, x) {
        lemma_same_entry(dir, engine, engine, module, module, ".lock"@, x);
    }
    if entry_file(dir, engine, module, x) == entry_file(dir, engine, module, y) {
        lemma_same_entry(dir, engine, engine, module, module, x, y);
        assert(x.skip(tmp.len() as int) =~= text::decimal(p));
        assert(y.skip(tmp.len() as int) =~= text::decimal(q));
        text::law_a_number_reads_back(p, (p + q) as int);
        text::law_a_number_reads_back(q, (p + q) as int);
    }
}

proof fn lemma_engine_parts(dir: Seq<u8>, engine: Seq<char>)
    requires
        dir.len() > 0,
        path::is_name(spelled(engine)),
    ensures
        engine_directory(dir, engine).len() > 0,
        path::components(engine_directory(dir, engine)) == path::components(dir).push(
            path::Part::Name(spelled("modules"@)),
        ).push(path::Part::Name(spelled(engine))),
{
    reveal_strlit("modules");
    let modules = spelled("modules"@);
    assert(vstd::utf8::is_ascii_chars("modules"@));
    vstd::utf8::is_ascii_chars_encode_utf8("modules"@);
    assert forall|i: int| 0 <= i < modules.len() implies modules[i] != 47 by {
        assert("modules"@[i] as u8 == modules[i]);
    }
    path::law_an_entry_stands_below_its_directory(dir, modules, modules);
    let below = path::joined(dir, modules);
    path::law_an_entry_stands_below_its_directory(below, spelled(engine), spelled(engine));
}

proof fn lemma_entry_parts(dir: Seq<u8>, engine: Seq<char>, module: Seq<u8>, suffix: Seq<char>)
    requires
        dir.len() > 0,
        path::is_name(spelled(engine)),
        suffix.len() > 2,
        suffix[0] == '.',
        vstd::utf8::is_ascii_chars(suffix),
        !suffix.contains('/'),
    ensures
        path::components(entry_file(dir, engine, module, suffix)) == path::components(dir).push(
            path::Part::Name(spelled("modules"@)),
        ).push(path::Part::Name(spelled(engine))).push(
            path::Part::Name(spelled(text::hex(digest::sha256(module)) + suffix)),
        ),
{
    lemma_engine_parts(dir, engine);
    lemma_entry_name(module, suffix);
    let name = spelled(text::hex(digest::sha256(module)) + suffix);
    path::law_an_entry_stands_below_its_directory(engine_directory(dir, engine), name, name);
}

proof fn lemma_same_entry(
    dir: Seq<u8>,
    engine: Seq<char>,
    other: Seq<char>,
    a: Seq<u8>,
    b: Seq<u8>,
    suffix: Seq<char>,
    ending: Seq<char>,
)
    requires
        dir.len() > 0,
        path::is_name(spelled(engine)),
        path::is_name(spelled(other)),
        suffix.len() > 2,
        suffix[0] == '.',
        vstd::utf8::is_ascii_chars(suffix),
        !suffix.contains('/'),
        ending.len() > 2,
        ending[0] == '.',
        vstd::utf8::is_ascii_chars(ending),
        !ending.contains('/'),
        entry_file(dir, engine, a, suffix) == entry_file(dir, other, b, ending),
        a == b || suffix == ending,
    ensures
        engine == other,
        suffix == ending,
        digest::sha256(a) == digest::sha256(b),
{
    lemma_entry_parts(dir, engine, a, suffix);
    lemma_entry_parts(dir, other, b, ending);
    let x = path::components(entry_file(dir, engine, a, suffix));
    let n = path::components(dir).len() as int;
    assert(x[n + 1] == path::Part::Name(spelled(engine)));
    assert(x[n + 1] == path::Part::Name(spelled(other)));
    lemma_spelled(engine, other);
    let (p, q) = (text::hex(digest::sha256(a)), text::hex(digest::sha256(b)));
    assert(x[n + 2] == path::Part::Name(spelled(p + suffix)));
    assert(x[n + 2] == path::Part::Name(spelled(q + ending)));
    lemma_spelled(p + suffix, q + ending);
    if a == b {
        assert((p + suffix).skip(p.len() as int) =~= suffix);
        assert((q + ending).skip(p.len() as int) =~= ending);
    } else {
        assert((p + suffix).len() == (q + ending).len());
        assert(p =~= q) by {
            assert(p =~= (p + suffix).take(p.len() as int));
            assert(q =~= (q + ending).take(p.len() as int));
        }
        let (x, y) = (digest::sha256(a), digest::sha256(b));
        assert(x.len() == y.len());
        assert forall|i: int| 0 <= i < x.len() implies x[i] == y[i] by {
            text::law_hex_reads_back(x, i);
            text::law_hex_reads_back(y, i);
        }
        assert(x =~= y);
    }
}

/// The name of an engine's directory tells engines apart by their own
/// identifier and format, and processors by their features, as far as the
/// beginning of a digest does.
pub proof fn law_an_engine_is_known_by_all_it_depends_on(
    a: Seq<char>,
    b: Seq<char>,
    format: Seq<char>,
    features: Seq<Seq<char>>,
    others: Seq<Seq<char>>,
)
    ensures
        engine_key_text(a, format, features) == engine_key_text(b, format, features) ==> a == b,
        engine_key_text(format, a, features) == engine_key_text(format, b, features) ==> a == b,
        engine_key_text(a, format, features) == engine_key_text(a, format, others)
            ==> text::hex(
            digest::sha256(
                spelled(
                    text::joined(Seq::new(features.len(), |i: int| lowercase(features[i])), "+"@),
                ),
            ).take(4),
        ) == text::hex(
            digest::sha256(
                spelled(
                    text::joined(Seq::new(others.len(), |i: int| lowercase(others[i])), "+"@),
                ),
            ).take(4),
        ),
{
    let list = text::joined(lowercased(features), "+"@);
    let list_others = text::joined(lowercased(others), "+"@);
    assert(Seq::new(features.len(), |i: int| lowercase(features[i])) =~= lowercased(features));
    assert(Seq::new(others.len(), |i: int| lowercase(others[i])) =~= lowercased(others));
    let cpu = text::hex(digest::sha256(spelled(list)).take(4));
    let cpu_others = text::hex(digest::sha256(spelled(list_others)).take(4));
    let tail = "-"@ + format + "-cpu"@ + cpu;
    if engine_key_text(a, format, features) == engine_key_text(b, format, features) {
        let x = engine_key_text(a, format, features);
        assert(x =~= a + tail);
        assert(engine_key_text(b, format, features) =~= b + tail);
        assert((a + tail).len() == (b + tail).len());
        assert(a =~= x.take(a.len() as int));
        assert(b =~= x.take(a.len() as int));
    }
    let start = format + "-"@;
    let end = "-cpu"@ + cpu;
    if engine_key_text(format, a, features) == engine_key_text(format, b, features) {
        let x = engine_key_text(format, a, features);
        assert(x =~= start + a + end);
        assert(engine_key_text(format, b, features) =~= start + b + end);
        assert(x.len() == (start + b + end).len());
        assert(a =~= x.subrange(start.len() as int, (start.len() + a.len()) as int));
        assert(b =~= x.subrange(start.len() as int, (start.len() + a.len()) as int));
    }
    let front = a + "-"@ + format + "-cpu"@;
    if engine_key_text(a, format, features) == engine_key_text(a, format, others) {
        assert((front + cpu).skip(front.len() as int) =~= cpu);
        assert((front + cpu_others).skip(front.len() as int) =~= cpu_others);
    }
}

/// A directory that is named by nothing is not set.
pub proof fn law_an_empty_name_is_not_set(value: Option<&UnixPath>)
    ensures
        set(value) <==> value is Some && (value->0).bytes@.len() > 0,
        spelled(Seq::empty()) == Seq::<u8>::empty(),
{
}

/// An entry's path tells modules apart as far as their digests do, over all of
/// their bytes, wherever the cache is and whatever its engine is called.
pub proof fn law_entries_tell_modules_apart(
    dir: Seq<u8>,
    engine: Seq<char>,
    a: Seq<u8>,
    b: Seq<u8>,
    pid: nat,
)
    ensures
        entry_file(dir, engine, a, ".bin"@) == entry_file(dir, engine, b, ".bin"@)
            ==> digest::sha256(a) == digest::sha256(b),
        entry_file(dir, engine, a, ".lock"@) == entry_file(dir, engine, b, ".lock"@)
            ==> digest::sha256(a) == digest::sha256(b),
        entry_file(dir, engine, a, ".bin.tmp-"@ + text::decimal(pid)) == entry_file(
            dir,
            engine,
            b,
            ".bin.tmp-"@ + text::decimal(pid),
        ) ==> digest::sha256(a) == digest::sha256(b),
{
    lemma_suffixes(pid);
    lemma_modules_apart(dir, engine, a, b, ".bin"@);
    lemma_modules_apart(dir, engine, a, b, ".lock"@);
    lemma_modules_apart(dir, engine, a, b, ".bin.tmp-"@ + text::decimal(pid));
}

proof fn lemma_modules_apart(
    dir: Seq<u8>,
    engine: Seq<char>,
    a: Seq<u8>,
    b: Seq<u8>,
    suffix: Seq<char>,
)
    requires
        suffix.len() > 2,
        suffix[0] == '.',
        vstd::utf8::is_ascii_chars(suffix),
        !suffix.contains('/'),
    ensures
        entry_file(dir, engine, a, suffix) == entry_file(dir, engine, b, suffix)
            ==> digest::sha256(a) == digest::sha256(b),
{
    let (p, q) = (text::hex(digest::sha256(a)), text::hex(digest::sha256(b)));
    lemma_entry_name(a, suffix);
    lemma_entry_name(b, suffix);
    if entry_file(dir, engine, a, suffix) == entry_file(dir, engine, b, suffix) {
        let (s, t) = (spelled(p + suffix), spelled(q + suffix));
        assert(s.contains(s[0]) && t.contains(t[0]));
        path::law_paths_in_a_directory_differ(engine_directory(dir, engine), s, t);
        lemma_spelled(p + suffix, q + suffix);
        assert((p + suffix).len() == (q + suffix).len());
        assert(p =~= (p + suffix).take(p.len() as int));
        assert(q =~= (q + suffix).take(p.len() as int));
        let (x, y) = (digest::sha256(a), digest::sha256(b));
        assert(x.len() == y.len());
        assert forall|i: int| 0 <= i < x.len() implies x[i] == y[i] by {
            text::law_hex_reads_back(x, i);
            text::law_hex_reads_back(y, i);
        }
        assert(x =~= y);
    }
}

/// A module that is found ends its load at once. One that is not is looked for
/// again under the entry's lock, and one that is absent there too is compiled,
/// written and then moved into place, in this order.
pub proof fn law_a_load_goes_through_its_steps(outcome: LoadOutcome)
    ensures
        ({
            let step = |s: LoadStep, o: LoadOutcome| next_step(s, o);
            let absent = LoadOutcome::Absent;
            let look = LoadStep::Look { waited: false };
            let again = LoadStep::Look { waited: true };
            &&& step(look, LoadOutcome::Success) == LoadStep::Done
            &&& step(again, LoadOutcome::Success) == LoadStep::Done
            &&& step(step(step(step(look, absent), outcome), outcome), outcome) == again
            &&& step(step(look, absent), outcome) != LoadStep::Lock
            &&& step(step(step(look, absent), outcome), outcome) != step(
                step(look, absent),
                outcome,
            )
            &&& step(step(step(step(again, absent), outcome), outcome), outcome) == LoadStep::Done
            &&& step(again, absent) == LoadStep::Compile
            &&& step(step(step(again, absent), outcome), outcome) == LoadStep::Publish
            &&& step(LoadStep::Done, outcome) == LoadStep::Done
        }),
{
}

/// A failed load is told by what was done and the path it was done to: the
/// module's, where it is about the module, else the one that the step uses.
pub proof fn law_a_failed_load_names_its_path(
    step: LoadStep,
    module: Seq<u8>,
    directory: Seq<u8>,
    lock: Seq<u8>,
    partial: Seq<u8>,
)
    ensures
        ({
            let said = load_failure(step, module, directory, lock, partial);
            let about = match step {
                LoadStep::CreateDirectory => directory,
                LoadStep::OpenLock | LoadStep::Lock => lock,
                LoadStep::Store | LoadStep::Publish => partial,
                _ => module,
            };
            &&& "failed to "@.is_prefix_of(said)
            &&& step == LoadStep::Publish ==> said == "failed to move "@ + path::lossy(about)
                + " into place"@
            &&& step != LoadStep::Publish ==> path::lossy(about) == said.skip(
                said.len() - path::lossy(about).len(),
            )
        }),
{
    reveal_strlit("failed to ");
    reveal_strlit("failed to load ");
    reveal_strlit("failed to create ");
    reveal_strlit("failed to open ");
    reveal_strlit("failed to lock ");
    reveal_strlit("failed to compile ");
    reveal_strlit("failed to write ");
    reveal_strlit("failed to move ");
    let said = load_failure(step, module, directory, lock, partial);
    let about = match step {
        LoadStep::CreateDirectory => directory,
        LoadStep::OpenLock | LoadStep::Lock => lock,
        LoadStep::Store | LoadStep::Publish => partial,
        _ => module,
    };
    assert("failed to "@ =~= said.subrange(0, "failed to "@.len() as int));
    if step != LoadStep::Publish {
        assert(path::lossy(about) =~= said.skip(said.len() - path::lossy(about).len()));
    }
}

/// Each step of a load that fails says what could not be done.
pub proof fn law_each_failed_step_says_what_it_did(
    module: Seq<u8>,
    directory: Seq<u8>,
    lock: Seq<u8>,
    partial: Seq<u8>,
    waited: bool,
)
    ensures
        ({
            let said = |step: LoadStep| load_failure(step, module, directory, lock, partial);
            &&& said(LoadStep::Look { waited }) == "failed to load "@ + path::lossy(module)
            &&& said(LoadStep::CreateDirectory) == "failed to create "@ + path::lossy(directory)
            &&& said(LoadStep::OpenLock) == "failed to open "@ + path::lossy(lock)
            &&& said(LoadStep::Lock) == "failed to lock "@ + path::lossy(lock)
            &&& said(LoadStep::Compile) == "failed to compile "@ + path::lossy(module)
            &&& said(LoadStep::Store) == "failed to write "@ + path::lossy(partial)
        }),
{
}

} // verus!
