//! What the command line means: where services are searched and the manager's
//! socket stands, which service an argument names, and how `run` and `request`
//! go from step to step.

use crate::bytes;
use crate::cache;
use crate::discovery;
use crate::discovery::ContentDigest;
use crate::discovery::DiscoveredPackage;
use crate::discovery::SelectError;
use crate::discovery::ServiceIndex;
use crate::discovery::ShadowedPackage;
use crate::host::net;
use crate::host::net::Address;
use crate::host::protocol;
use crate::host::protocol::Reply;
use crate::host::protocol::Run;
use crate::manifest::Manifest;
use crate::path;
use crate::path::UnixPath;
use crate::serve::api;
use crate::serve::api::CreateInstance;
use crate::serve::api::Instance;
use crate::serve::api::InstanceState;
use crate::text;
use vstd::prelude::*;

verus! {

/// The first of the directories that services are installed in system-wide.
pub const LOCAL_SERVICES: &'static str = "/usr/local/share/servicecache/services";

/// The second of them.
pub const SYSTEM_SERVICES: &'static str = "/usr/share/servicecache/services";

/// What separates the entries of a search path.
pub const PATH_SEPARATOR: u8 = 58;

/// The entries of a search path that name something.
pub open spec fn search_entries(value: Seq<u8>) -> Seq<Seq<u8>>
    decreases value.len(),
{
    let at = bytes::position(value, PATH_SEPARATOR);
    let first = if at == 0 {
        Seq::<Seq<u8>>::empty()
    } else {
        seq![value.take(at)]
    };
    if 0 <= at < value.len() {
        first + search_entries(value.skip(at + 1))
    } else {
        first
    }
}

/// Where services are searched when nothing says so: below the home directory,
/// where there is one, then system-wide.
pub open spec fn default_dirs(home: Option<Seq<u8>>) -> Seq<Seq<u8>> {
    let system = seq![cache::spelled(LOCAL_SERVICES@), cache::spelled(SYSTEM_SERVICES@)];
    match home {
        Some(home) => seq![
            path::joined(
                path::joined(
                    path::joined(path::joined(home, cache::spelled(".local"@)), cache::spelled("share"@)),
                    cache::spelled("servicecache"@),
                ),
                cache::spelled("services"@),
            ),
        ] + system,
        None => system,
    }
}

/// The view of an optional path.
pub open spec fn path_view(value: Option<&UnixPath>) -> Option<Seq<u8>> {
    match value {
        Some(value) => Some(value@),
        None => None,
    }
}

/// The directories services are searched in: the flags', else the
/// environment's, else the defaults.
pub fn service_dirs(
    flag_dirs: Vec<UnixPath>,
    environment_dirs: Option<&UnixPath>,
    home: Option<&UnixPath>,
) -> (r: Vec<UnixPath>)
    ensures
        path::path_views(r@) == if flag_dirs@.len() > 0 {
            path::path_views(flag_dirs@)
        } else {
            match environment_dirs {
                Some(value) => search_entries(value@),
                None => default_dirs(path_view(home)),
            }
        },
{
    if flag_dirs.len() > 0 {
        return flag_dirs;
    }
    if let Some(value) = environment_dirs {
        return split_paths(value);
    }
    let mut defaults: Vec<UnixPath> = Vec::new();
    if let Some(home) = home {
        defaults.push(
            home.join(&UnixPath::from_text(".local")).join(&UnixPath::from_text("share")).join(
                &UnixPath::from_text("servicecache"),
            ).join(&UnixPath::from_text("services")),
        );
    }
    defaults.push(UnixPath::from_text(LOCAL_SERVICES));
    defaults.push(UnixPath::from_text(SYSTEM_SERVICES));
    proof {
        assert(path::path_views(defaults@) =~= default_dirs(path_view(home)));
    }
    defaults
}

/// The entries of a search path that name something.
fn split_paths(value: &UnixPath) -> (r: Vec<UnixPath>)
    ensures
        path::path_views(r@) == search_entries(value@),
{
    let mut out: Vec<UnixPath> = Vec::new();
    let ghost all = value@;
    let mut from: usize = 0;
    proof {
        assert(all.skip(0) =~= all);
        assert(path::path_views(out@) + search_entries(all) =~= search_entries(all));
    }
    let total: usize = value.bytes.len();
    loop
        invariant_except_break
            path::path_views(out@) + search_entries(all.skip(from as int)) == search_entries(
                all,
            ),
        invariant
            all == value.bytes@,
            total == all.len(),
            from <= total,
        ensures
            path::path_views(out@) == search_entries(all),
        decreases all.len() - from,
    {
        let ghost rest = all.skip(from as int);
        let ghost before = path::path_views(out@);
        let length: usize = bytes::find_from(&value.bytes, from, PATH_SEPARATOR);
        let to: usize = from + length;
        if length > 0 {
            let entry = bytes::copied(
                vstd::slice::slice_subrange(value.bytes.as_slice(), from, to),
            );
            out.push(UnixPath::new(entry));
            proof {
                assert(entry@ =~= rest.take(length as int));
                assert(path::path_views(out@) =~= before.push(rest.take(length as int)));
            }
        }
        proof {
            let first = if length == 0 {
                Seq::<Seq<u8>>::empty()
            } else {
                seq![rest.take(length as int)]
            };
            assert(path::path_views(out@) =~= before + first);
        }
        if to >= total {
            proof {
                assert(search_entries(rest) =~= if length == 0 {
                    Seq::<Seq<u8>>::empty()
                } else {
                    seq![rest.take(length as int)]
                });
            }
            break ;
        }
        proof {
            assert(rest.skip(length + 1) =~= all.skip(to + 1));
            let first = if length == 0 {
                Seq::<Seq<u8>>::empty()
            } else {
                seq![rest.take(length as int)]
            };
            assert(search_entries(rest) == first + search_entries(all.skip(to + 1)));
            assert(before + (first + search_entries(all.skip(to + 1))) =~= (before + first)
                + search_entries(all.skip(to + 1)));
        }
        from = to + 1;
    }
    out
}

/// The name of the manager's socket.
pub const SOCKET_NAME: &'static str = "serve.sock";

/// The manager's socket: the flag's, else the environment's, else the one in
/// the runtime directory, else a per-user path in the directory for temporary
/// files. A variable that is set to nothing counts as not set.
pub fn socket_path(
    flag: Option<UnixPath>,
    environment: Option<&UnixPath>,
    runtime_dir: Option<&UnixPath>,
    temp_dir: &UnixPath,
    uid: u32,
) -> (r: UnixPath)
    ensures
        r@ == if flag is Some {
            (flag->0)@
        } else if cache::set(environment) {
            (environment->0)@
        } else if cache::set(runtime_dir) {
            path::joined(
                path::joined((runtime_dir->0)@, cache::spelled("servicecache"@)),
                cache::spelled(SOCKET_NAME@),
            )
        } else {
            path::joined(
                path::joined(
                    temp_dir@,
                    cache::spelled("servicecache-"@ + text::decimal(uid as nat)),
                ),
                cache::spelled(SOCKET_NAME@),
            )
        },
{
    if let Some(socket) = flag {
        return socket;
    }
    if let Some(value) = environment {
        if value.bytes.len() > 0 {
            return value.clone();
        }
    }
    if let Some(dir) = runtime_dir {
        if dir.bytes.len() > 0 {
            return dir.join(&UnixPath::from_text("servicecache")).join(
                &UnixPath::from_text(SOCKET_NAME),
            );
        }
    }
    let mut name = "servicecache-".to_owned();
    text::push_decimal(&mut name, uid as u64);
    temp_dir.join(&UnixPath::from_text(name.as_str())).join(&UnixPath::from_text(SOCKET_NAME))
}

/// How much is logged. A server prints its request log by default: `serve`
/// starts at one `-v` unless a filter was chosen.
pub fn verbosity(serving: bool, verbose: u8, log: bool, environment: bool) -> (r: u8)
    ensures
        r == if serving && verbose == 0 && !log && !environment {
            1
        } else {
            verbose
        },
{
    if serving && verbose == 0 && !log && !environment {
        1
    } else {
        verbose
    }
}

/// A service argument: the name, and the version where one is named.
pub open spec fn named(service: Seq<char>) -> (Seq<char>, Option<Seq<char>>) {
    match text::split_once(service, '@') {
        Some((name, version)) => (name, Some(version)),
        None => (service, None),
    }
}

/// A `name` or `name@version` argument, split.
pub fn split_service(service: &str) -> (r: (String, Option<String>))
    ensures
        r.0@ == named(service@).0,
        (match r.1 {
            Some(version) => Some(version@),
            None => None,
        }) == named(service@).1,
{
    let characters = text::characters(service);
    let at: usize = text::find(&characters, '@');
    if at < characters.len() {
        let name = text::text_of(vstd::slice::slice_subrange(characters.as_slice(), 0, at));
        let version = text::text_of(
            vstd::slice::slice_subrange(characters.as_slice(), at + 1, characters.len()),
        );
        proof {
            assert(name@ =~= service@.take(at as int));
            assert(version@ =~= service@.skip(at + 1));
        }
        (name, Some(version))
    } else {
        (service.to_owned(), None)
    }
}

/// Why an argument names no service.
pub open spec fn service_error(
    packages: Seq<DiscoveredPackage>,
    service: Seq<char>,
) -> Option<Seq<char>> {
    let (name, version) = named(service);
    let found = discovery::wanted(packages, name, version);
    if found.len() == 0 {
        Some("no installed service matches "@ + service)
    } else if found.len() == 1 {
        None
    } else {
        Some(
            name + " is installed in several versions ("@ + text::joined(
                discovery::versions_at(packages, found),
                ", "@,
            ) + "); name one as "@ + name + "@<version>"@,
        )
    }
}

/// The service an argument names; the name alone selects the only installed
/// version.
pub fn find_service<'a>(services: &'a ServiceIndex, service: &str) -> (r: Result<
    &'a Manifest,
    String,
>)
    ensures
        match service_error(services.packages@, service@) {
            Some(error) => r is Err && (r->Err_0)@ == error,
            None => r is Ok && *(r->Ok_0) == services.packages@[discovery::wanted(
                services.packages@,
                named(service@).0,
                named(service@).1,
            )[0]].manifest,
        },
{
    let (name, version) = split_service(service);
    let version: Option<&str> = match &version {
        Some(version) => Some(version.as_str()),
        None => None,
    };
    match services.select(name.as_str(), version) {
        Ok(manifest) => Ok(manifest),
        Err(SelectError::NotFound) => {
            let mut error = "no installed service matches ".to_owned();
            error.append(service);
            Err(error)
        },
        Err(SelectError::Ambiguous(versions)) => {
            let mut error = name.clone();
            error.append(" is installed in several versions (");
            error.append(text::join(&versions, ", ").as_str());
            error.append("); name one as ");
            error.append(name.as_str());
            error.append("@<version>");
            Err(error)
        },
    }
}

/// Whether a recipe argument asks for standard input.
pub fn is_standard_input(recipe: &UnixPath) -> (r: bool)
    ensures
        r == (recipe@ == seq![45u8]),
{
    let r: bool = recipe.bytes.len() == 1 && recipe.bytes[0] == 45;
    proof {
        if r {
            assert(recipe@ =~= seq![45u8]);
        }
    }
    r
}

/// Lines for standard error, collected to be written in one go, so that a
/// group of them never interleaves with what a host writes there at the same
/// time.
#[derive(Debug)]
pub struct Lines(pub String);

/// A line with its end.
pub open spec fn line(s: Seq<char>) -> Seq<char> {
    s + "\n"@
}

impl Lines {
    /// No lines.
    pub fn new() -> (r: Self)
        ensures
            r.0@ == Seq::<char>::empty(),
    {
        Lines(String::new())
    }

    /// Adds a line.
    pub fn line(&mut self, s: &str)
        ensures
            final(self).0@ == old(self).0@ + line(s@),
    {
        self.0.append(s);
        self.0.append("\n");
        proof {
            assert(self.0@ =~= old(self).0@ + line(s@));
        }
    }
}

/// A package's file with its digest, indented.
pub open spec fn file_line(indent: Seq<char>, file: ContentDigest) -> Seq<char> {
    indent + file.sha256@ + "  "@ + path::lossy(file.path@)
}

/// A line for each file.
pub open spec fn file_lines(indent: Seq<char>, files: Seq<ContentDigest>) -> Seq<char>
    decreases files.len(),
{
    if files.len() == 0 {
        Seq::empty()
    } else {
        file_lines(indent, files.drop_last()) + line(file_line(indent, files.last()))
    }
}

/// What is listed of a package that is shadowed.
pub open spec fn shadow_lines(shadow: ShadowedPackage) -> Seq<char> {
    line("  shadowed "@ + path::lossy(shadow.directory@)) + file_lines("    "@, shadow.files@)
}

/// What is listed of the packages that are shadowed.
pub open spec fn shadows_lines(shadows: Seq<ShadowedPackage>) -> Seq<char>
    decreases shadows.len(),
{
    if shadows.len() == 0 {
        Seq::empty()
    } else {
        shadows_lines(shadows.drop_last()) + shadow_lines(shadows.last())
    }
}

/// A service's name, its version and where its package is.
pub open spec fn service_line(manifest: Manifest, directory: Seq<u8>) -> Seq<char> {
    manifest.service.name@ + " "@ + manifest.service.version@ + " "@ + path::lossy(directory)
}

/// What is listed of a package.
pub open spec fn package_lines(package: DiscoveredPackage) -> Seq<char> {
    line(service_line(package.manifest, package.manifest.directory@)) + file_lines(
        "  "@,
        package.files@,
    ) + shadows_lines(package.shadowed@)
}

/// What is listed of an index.
pub open spec fn services_lines(packages: Seq<DiscoveredPackage>) -> Seq<char>
    decreases packages.len(),
{
    if packages.len() == 0 {
        Seq::empty()
    } else {
        services_lines(packages.drop_last()) + package_lines(packages.last())
    }
}

/// Adds a line for each file.
fn list_files(lines: &mut Lines, indent: &str, files: &Vec<ContentDigest>)
    ensures
        final(lines).0@ == old(lines).0@ + file_lines(indent@, files@),
{
    let ghost start = lines.0@;
    let mut i: usize = 0;
    proof {
        assert(lines.0@ =~= start + file_lines(indent@, files@.take(0)));
    }
    while i < files.len()
        invariant
            i <= files@.len(),
            lines.0@ == start + file_lines(indent@, files@.take(i as int)),
        decreases files@.len() - i,
    {
        let ghost before = lines.0@;
        let mut out = indent.to_owned();
        out.append(files[i].sha256.as_str());
        out.append("  ");
        out.append(files[i].path.display().as_str());
        lines.line(out.as_str());
        proof {
            let next = files@.take(i + 1);
            assert(next.drop_last() =~= files@.take(i as int));
            assert(next.last() == files@[i as int]);
            assert(lines.0@ =~= start + file_lines(indent@, next));
        }
        i = i + 1;
    }
    proof {
        assert(files@.take(i as int) =~= files@);
    }
}

/// Adds what is listed of the packages that are shadowed.
fn list_shadows(lines: &mut Lines, shadows: &Vec<ShadowedPackage>)
    ensures
        final(lines).0@ == old(lines).0@ + shadows_lines(shadows@),
{
    let ghost start = lines.0@;
    let mut i: usize = 0;
    proof {
        assert(lines.0@ =~= start + shadows_lines(shadows@.take(0)));
    }
    while i < shadows.len()
        invariant
            i <= shadows@.len(),
            lines.0@ == start + shadows_lines(shadows@.take(i as int)),
        decreases shadows@.len() - i,
    {
        let mut out = "  shadowed ".to_owned();
        out.append(shadows[i].directory.display().as_str());
        lines.line(out.as_str());
        list_files(lines, "    ", &shadows[i].files);
        proof {
            let next = shadows@.take(i + 1);
            assert(next.drop_last() =~= shadows@.take(i as int));
            assert(next.last() == shadows@[i as int]);
            assert(lines.0@ =~= start + shadows_lines(next));
        }
        i = i + 1;
    }
    proof {
        assert(shadows@.take(i as int) =~= shadows@);
    }
}

/// The line that names a service and its package.
fn service_text(manifest: &Manifest, directory: &UnixPath) -> (r: String)
    ensures
        r@ == service_line(*manifest, directory@),
{
    let mut out = manifest.service.name.clone();
    out.append(" ");
    out.append(manifest.service.version.as_str());
    out.append(" ");
    out.append(directory.display().as_str());
    out
}

/// The listing of the discovered packages and their content digests.
pub fn print_services(services: &ServiceIndex) -> (r: String)
    ensures
        r@ == services_lines(services.packages@),
{
    let ghost all = services.packages@;
    let mut lines = Lines::new();
    let mut i: usize = 0;
    proof {
        assert(all.take(0) =~= Seq::empty());
    }
    while i < services.packages.len()
        invariant
            all == services.packages@,
            i <= all.len(),
            lines.0@ == services_lines(all.take(i as int)),
        decreases all.len() - i,
    {
        let ghost before = lines.0@;
        let package = &services.packages[i];
        lines.line(service_text(&package.manifest, package.manifest.directory()).as_str());
        list_files(&mut lines, "  ", &package.files);
        list_shadows(&mut lines, &package.shadowed);
        proof {
            let next = all.take(i + 1);
            assert(next.drop_last() =~= all.take(i as int));
            assert(next.last() == all[i as int]);
            assert(lines.0@ =~= before + package_lines(all[i as int]));
        }
        i = i + 1;
    }
    proof {
        assert(all.take(i as int) =~= all);
    }
    lines.0
}

/// The line for a package whose modules all load.
pub fn checked_line(manifest: &Manifest, directory: &UnixPath) -> (r: String)
    ensures
        r@ == "checked "@ + service_line(*manifest, directory@),
{
    let mut out = "checked ".to_owned();
    out.append(service_text(manifest, directory).as_str());
    out
}

/// What is said of a package with a module that does not load.
pub fn check_failure(manifest: &Manifest, directory: &UnixPath) -> (r: String)
    ensures
        r@ == "service "@ + manifest.service.name@ + " "@ + manifest.service.version@ + " in "@
            + path::lossy(directory@) + " failed its module check"@,
{
    let mut out = "service ".to_owned();
    out.append(manifest.service.name.as_str());
    out.append(" ");
    out.append(manifest.service.version.as_str());
    out.append(" in ");
    out.append(directory.display().as_str());
    out.append(" failed its module check");
    out
}

/// How far `run` has brought a service.
#[derive(Clone, Copy, Debug, PartialEq, Eq, Structural)]
pub enum RunStage {
    Spawning,
    Preparing,
    Starting,
    Initializing,
    Serving,
    Ended,
}

/// `run`: brings a service up in a host, prints its endpoint, and waits for
/// the guest to exit.
#[derive(Debug)]
pub struct ServiceRun {
    pub stage: RunStage,
    /// The service's name.
    pub name: String,
    pub has_prepare: bool,
    pub has_initializer: bool,
    /// Whether a recipe was given.
    pub has_recipe: bool,
}

/// What a host has done for `run`.
#[derive(Clone, Copy, Debug, PartialEq, Eq, Structural)]
pub enum RunEvent {
    Spawned,
    /// The prepare step exited with this status.
    Prepared(i32),
    Started,
    /// The initializer exited with this status.
    Initialized(i32),
    /// The guest, or the last of its clones, exited with this status.
    Exited(i32),
}

/// What `run` does next.
#[derive(Debug)]
pub enum RunAction {
    Wait,
    Prepare,
    Start,
    Initialize,
    /// Print the endpoint; `uninitialized` where the service has an
    /// initializer that was not run.
    Announce { uninitialized: bool },
    /// End, with this error.
    Fail(String),
    /// End in good order.
    Finish,
}

/// What `run` does next, over the text of the error.
pub enum RunAct {
    Wait,
    Prepare,
    Start,
    Initialize,
    Announce { uninitialized: bool },
    Fail(Seq<char>),
    Finish,
}

impl View for RunAction {
    type V = RunAct;

    open spec fn view(&self) -> RunAct {
        match self {
            RunAction::Wait => RunAct::Wait,
            RunAction::Prepare => RunAct::Prepare,
            RunAction::Start => RunAct::Start,
            RunAction::Initialize => RunAct::Initialize,
            RunAction::Announce { uninitialized } => RunAct::Announce {
                uninitialized: *uninitialized,
            },
            RunAction::Fail(error) => RunAct::Fail(error@),
            RunAction::Finish => RunAct::Finish,
        }
    }
}

/// What is said where the initializer was not run.
pub const NOT_INITIALIZED: &'static str = "no --recipe: the initializer was not run";

/// Something exited with a status.
pub open spec fn exited_text(what: Seq<char>, status: i32) -> Seq<char> {
    what + " exited with status "@ + text::signed_decimal(status as int)
}

/// Something exited with a status.
fn exited(what: &str, status: i32) -> (r: String)
    ensures
        r@ == exited_text(what@, status),
{
    let mut out = what.to_owned();
    out.append(" exited with status ");
    text::push_signed(&mut out, status);
    out
}

impl ServiceRun {
    /// The stage after an event, and what is done.
    pub open spec fn stepped(self, event: RunEvent) -> (RunStage, RunAct) {
        match (self.stage, event) {
            (RunStage::Spawning, RunEvent::Spawned) => if self.has_prepare {
                (RunStage::Preparing, RunAct::Prepare)
            } else {
                (RunStage::Starting, RunAct::Start)
            },
            (RunStage::Preparing, RunEvent::Prepared(status)) => if status == 0 {
                (RunStage::Starting, RunAct::Start)
            } else {
                (RunStage::Ended, RunAct::Fail(exited_text("the prepare step"@, status)))
            },
            (RunStage::Starting, RunEvent::Started) => if self.has_recipe {
                if self.has_initializer {
                    (RunStage::Initializing, RunAct::Initialize)
                } else {
                    (
                        RunStage::Ended,
                        RunAct::Fail(self.name@ + " has no initializer to give the recipe to"@),
                    )
                }
            } else {
                (RunStage::Serving, RunAct::Announce { uninitialized: self.has_initializer })
            },
            (RunStage::Initializing, RunEvent::Initialized(status)) => if status == 0 {
                (RunStage::Serving, RunAct::Announce { uninitialized: false })
            } else {
                (RunStage::Ended, RunAct::Fail(exited_text("the initializer"@, status)))
            },
            (RunStage::Serving, RunEvent::Exited(status)) => if status == 0 {
                (RunStage::Ended, RunAct::Finish)
            } else {
                (RunStage::Ended, RunAct::Fail(exited_text(self.name@, status)))
            },
            _ => (self.stage, RunAct::Wait),
        }
    }

    /// A run about to spawn its host.
    pub fn new(manifest: &Manifest, has_recipe: bool) -> (r: Self)
        ensures
            r.stage == RunStage::Spawning,
            r.name == manifest.service.name,
            r.has_prepare == manifest.prepare is Some,
            r.has_initializer == manifest.initializer is Some,
            r.has_recipe == has_recipe,
    {
        ServiceRun {
            stage: RunStage::Spawning,
            name: manifest.service.name.clone(),
            has_prepare: manifest.prepare.is_some(),
            has_initializer: manifest.initializer.is_some(),
            has_recipe,
        }
    }

    /// Takes an event, and tells what to do next.
    pub fn step(&mut self, event: RunEvent) -> (r: RunAction)
        ensures
            *final(self) == (ServiceRun { stage: old(self).stepped(event).0, ..*old(self) }),
            r@ == old(self).stepped(event).1,
    {
        match (self.stage, event) {
            (RunStage::Spawning, RunEvent::Spawned) => {
                if self.has_prepare {
                    self.stage = RunStage::Preparing;
                    RunAction::Prepare
                } else {
                    self.stage = RunStage::Starting;
                    RunAction::Start
                }
            },
            (RunStage::Preparing, RunEvent::Prepared(status)) => {
                if status == 0 {
                    self.stage = RunStage::Starting;
                    RunAction::Start
                } else {
                    self.stage = RunStage::Ended;
                    RunAction::Fail(exited("the prepare step", status))
                }
            },
            (RunStage::Starting, RunEvent::Started) => {
                if self.has_recipe {
                    if self.has_initializer {
                        self.stage = RunStage::Initializing;
                        RunAction::Initialize
                    } else {
                        self.stage = RunStage::Ended;
                        let mut error = self.name.clone();
                        error.append(" has no initializer to give the recipe to");
                        RunAction::Fail(error)
                    }
                } else {
                    self.stage = RunStage::Serving;
                    RunAction::Announce { uninitialized: self.has_initializer }
                }
            },
            (RunStage::Initializing, RunEvent::Initialized(status)) => {
                if status == 0 {
                    self.stage = RunStage::Serving;
                    RunAction::Announce { uninitialized: false }
                } else {
                    self.stage = RunStage::Ended;
                    RunAction::Fail(exited("the initializer", status))
                }
            },
            (RunStage::Serving, RunEvent::Exited(status)) => {
                self.stage = RunStage::Ended;
                if status == 0 {
                    RunAction::Finish
                } else {
                    RunAction::Fail(exited(self.name.as_str(), status))
                }
            },
            _ => RunAction::Wait,
        }
    }
}

/// A recipe is never dropped in silence: where one was given, nothing is
/// announced before the initializer has exited with status 0.
pub proof fn law_a_recipe_is_run_or_refused(run: ServiceRun, event: RunEvent)
    requires
        run.has_recipe,
        run.stepped(event).1 is Announce,
    ensures
        run.stage == RunStage::Initializing,
        event == RunEvent::Initialized(0),
{
}

/// The plural ending for a count.
pub open spec fn plural(count: int) -> Seq<char> {
    if count == 1 {
        ""@
    } else {
        "s"@
    }
}

/// The plural ending for a count.
fn plural_ending(count: usize) -> (r: &'static str)
    ensures
        r@ == plural(count as int),
{
    if count == 1 {
        ""
    } else {
        "s"
    }
}

/// The line that says where a service listens.
pub open spec fn listening_line(name: Seq<char>, endpoint: Address, listen_port: u16) -> Seq<char> {
    "==> "@ + name + " is listening on host port "@ + text::decimal(endpoint.port as nat) + " ("@
        + net::address_text(endpoint@) + "; guest port "@ + text::decimal(listen_port as nat)
        + "). Ctrl-C to stop."@
}

/// The line that says how to fork clones.
pub open spec fn forking_line(pid: u32, count: usize) -> Seq<char> {
    "==> Enter here, or `kill -USR1 "@ + text::decimal(pid as nat)
        + "`, freezes it and forks "@ + text::decimal(count as nat) + " clone"@ + plural(
        count as int,
    ) + "."@
}

/// What `run` prints for a person once the service is up.
pub fn run_banner(
    name: &str,
    endpoint: &Address,
    listen_port: u16,
    pid: u32,
    clones: Option<usize>,
) -> (r: String)
    ensures
        r@ == line(""@) + line(listening_line(name@, *endpoint, listen_port)) + (match clones {
            Some(count) => line(forking_line(pid, count)),
            None => Seq::empty(),
        }) + line(""@),
{
    let mut listening = "==> ".to_owned();
    listening.append(name);
    listening.append(" is listening on host port ");
    text::push_decimal(&mut listening, endpoint.port as u64);
    listening.append(" (");
    listening.append(endpoint.text().as_str());
    listening.append("; guest port ");
    text::push_decimal(&mut listening, listen_port as u64);
    listening.append("). Ctrl-C to stop.");
    let mut lines = Lines::new();
    lines.line("");
    lines.line(listening.as_str());
    if let Some(count) = clones {
        let mut forking = "==> Enter here, or `kill -USR1 ".to_owned();
        text::push_decimal(&mut forking, pid as u64);
        forking.append("`, freezes it and forks ");
        text::push_decimal(&mut forking, count as u64);
        forking.append(" clone");
        forking.append(plural_ending(count));
        forking.append(".");
        lines.line(forking.as_str());
    }
    lines.line("");
    lines.0
}

/// `run --clones`: serves a template, freezing it and forking clones each time
/// it is asked to. It ends when the guest exits, or once frozen when the last
/// clone has.
#[derive(Debug)]
pub struct CloneRun {
    /// How many clones are forked each time.
    pub count: usize,
    /// Whether standard input is a terminal that is still watched.
    pub terminal: bool,
    pub frozen: bool,
    /// Whether any clone exited with a status other than 0.
    pub clone_failed: bool,
    /// The process ids of the clones that have not exited.
    pub clones: Vec<u32>,
    /// How many clones are still to be forked.
    pub due: usize,
}

/// What a trigger asks for.
#[derive(Clone, Copy, Debug, PartialEq, Eq, Structural)]
pub struct Forking {
    /// Whether the template is to be frozen first.
    pub freeze: bool,
    /// How many clones are to be forked then.
    pub clones: usize,
}

/// How far a run is with its forks.
pub struct ForkState {
    pub frozen: bool,
    pub due: int,
}

/// What a run does for its forks: a signal or a line of the terminal asks for
/// them, the template is frozen, a clone is forked.
pub enum ForkAct {
    Trigger,
    Freeze,
    Fork,
}

/// Whether a run may do this: it takes a trigger once the clones of the last
/// one are forked, freezes a template that is not frozen and forks one that
/// is, where a clone is due.
pub open spec fn may_act(state: ForkState, act: ForkAct) -> bool {
    match act {
        ForkAct::Trigger => state.due == 0,
        ForkAct::Freeze => !state.frozen,
        ForkAct::Fork => state.frozen && state.due > 0,
    }
}

/// How far a run that forks `count` clones each time is then.
pub open spec fn acted(state: ForkState, count: int, act: ForkAct) -> ForkState {
    match act {
        ForkAct::Trigger => ForkState { due: count, ..state },
        ForkAct::Freeze => ForkState { frozen: true, ..state },
        ForkAct::Fork => ForkState { due: state.due - 1, ..state },
    }
}

/// What an event of the template means to a run with clones.
#[derive(Debug)]
pub enum CloneStep {
    /// Print the lines and go on.
    Continue(Lines),
    /// Print the lines and end with this status.
    End(Lines, i32),
    /// The event is none a template sends: the error says so.
    Unexpected(String),
}

/// What is said of an event that is none a template sends.
pub open spec fn unexpected_event(event: Reply) -> Seq<char> {
    "unexpected event from the template: "@ + protocol::spelled_out(event@)
}

/// What is said of an event that is none a template sends.
fn unexpected(event: &Reply) -> (r: String)
    ensures
        r@ == unexpected_event(*event),
{
    let mut out = "unexpected event from the template: ".to_owned();
    out.append(event.spelled().as_str());
    out
}

/// The ids but for one.
pub open spec fn without(clones: Seq<u32>, pid: u32) -> Seq<u32>
    decreases clones.len(),
{
    if clones.len() == 0 {
        Seq::empty()
    } else {
        let rest = without(clones.drop_last(), pid);
        if clones.last() == pid {
            rest
        } else {
            rest.push(clones.last())
        }
    }
}

/// The line for a clone that has exited.
pub open spec fn clone_exited_line(pid: u32, status: i32) -> Seq<char> {
    exited_text("==> clone "@ + text::decimal(pid as nat), status)
}

/// The line for the end of the last clone.
pub const ALL_EXITED: &'static str = "==> every clone has exited";

impl CloneRun {
    /// How far the run is with its forks.
    pub open spec fn forks(self) -> ForkState {
        ForkState { frozen: self.frozen, due: self.due as int }
    }

    /// A run that has forked nothing yet.
    pub fn new(count: usize, terminal: bool) -> (r: Self)
        ensures
            r.count == count,
            r.terminal == terminal,
            !r.frozen,
            !r.clone_failed,
            r.clones@ == Seq::<u32>::empty(),
            r.due == 0,
    {
        CloneRun { count, terminal, frozen: false, clone_failed: false, clones: Vec::new(), due: 0 }
    }

    /// Takes an event of the template.
    pub fn event(&mut self, event: &Reply) -> (r: CloneStep)
        ensures
            final(self).count == old(self).count,
            final(self).terminal == old(self).terminal,
            final(self).forks() == old(self).forks(),
            match event {
                Reply::Exited { run: Run::Guest, status, .. } => {
                    &&& r matches CloneStep::End(lines, ended)
                    &&& lines.0@ == Seq::<char>::empty()
                    &&& ended == status
                    &&& final(self).clones@ == old(self).clones@
                    &&& final(self).clone_failed == old(self).clone_failed
                },
                Reply::Exited { status, pid: Some(pid), .. } => {
                    &&& final(self).clones@ == without(old(self).clones@, *pid)
                    &&& final(self).clone_failed == (old(self).clone_failed || status != 0)
                    &&& if final(self).clones@.len() == 0 {
                        &&& r matches CloneStep::End(lines, ended)
                        &&& lines.0@ == line(clone_exited_line(*pid, *status)) + line(ALL_EXITED@)
                        &&& ended == if final(self).clone_failed {
                            1i32
                        } else {
                            0
                        }
                    } else {
                        r matches CloneStep::Continue(lines) && lines.0@ == line(
                            clone_exited_line(*pid, *status),
                        )
                    }
                },
                _ => {
                    &&& r matches CloneStep::Unexpected(error)
                    &&& error@ == unexpected_event(*event)
                    &&& final(self).clones@ == old(self).clones@
                    &&& final(self).clone_failed == old(self).clone_failed
                },
            },
    {
        let (run, status, pid) = match event {
            Reply::Exited { run, status, pid } => (*run, *status, *pid),
            _ => {
                return CloneStep::Unexpected(unexpected(event));
            },
        };
        if run == Run::Guest {
            return CloneStep::End(Lines::new(), status);
        }
        let pid: u32 = match pid {
            Some(pid) => pid,
            None => {
                return CloneStep::Unexpected(unexpected(event));
            },
        };
        self.remove(pid);
        self.clone_failed = self.clone_failed || status != 0;
        let mut what = "==> clone ".to_owned();
        text::push_decimal(&mut what, pid as u64);
        let mut lines = Lines::new();
        lines.line(exited(what.as_str(), status).as_str());
        if self.clones.len() == 0 {
            lines.line(ALL_EXITED);
            let ended: i32 = if self.clone_failed {
                1
            } else {
                0
            };
            return CloneStep::End(lines, ended);
        }
        CloneStep::Continue(lines)
    }

    /// Forgets a clone.
    fn remove(&mut self, pid: u32)
        ensures
            *final(self) == (CloneRun { clones: final(self).clones, ..*old(self) }),
            final(self).clones@ == without(old(self).clones@, pid),
    {
        let ghost all = self.clones@;
        let mut kept: Vec<u32> = Vec::new();
        let mut i: usize = 0;
        proof {
            assert(all.take(0) =~= Seq::empty());
        }
        while i < self.clones.len()
            invariant
                all == self.clones@,
                i <= all.len(),
                kept@ == without(all.take(i as int), pid),
            decreases all.len() - i,
        {
            proof {
                assert(all.take(i + 1).drop_last() =~= all.take(i as int));
                assert(all.take(i + 1).last() == all[i as int]);
            }
            if self.clones[i] != pid {
                kept.push(self.clones[i]);
            }
            i = i + 1;
        }
        proof {
            assert(all.take(i as int) =~= all);
        }
        self.clones = kept;
    }

    /// What to fork now: a signal came, or a line on the terminal, whose
    /// length is given. The template is frozen before its first fork, and each
    /// trigger forks the same number of clones. At the end of input the
    /// terminal is watched no more.
    pub fn asked(&mut self, signal: bool, input: Option<usize>) -> (r: Option<Forking>)
        requires
            may_act(old(self).forks(), ForkAct::Trigger),
        ensures
            r is Some <==> signal || (input is Some && input->0 > 0),
            r matches Some(forking) ==> forking == (Forking {
                freeze: !old(self).frozen,
                clones: old(self).count,
            }),
            final(self).forks() == if r is Some {
                acted(old(self).forks(), old(self).count as int, ForkAct::Trigger)
            } else {
                old(self).forks()
            },
            *final(self) == (CloneRun {
                terminal: old(self).terminal && input != Some(0usize),
                due: final(self).due,
                ..*old(self)
            }),
    {
        let mut fork: bool = signal;
        if let Some(read) = input {
            if read == 0 {
                self.terminal = false;
            } else {
                fork = true;
            }
        }
        if !fork {
            return None;
        }
        self.due = self.count;
        Some(Forking { freeze: !self.frozen, clones: self.count })
    }

    /// The template is frozen; the line that says so. `elapsed` is the time it
    /// took, in words.
    pub fn froze(&mut self, threads: usize, elapsed: &str) -> (r: String)
        requires
            may_act(old(self).forks(), ForkAct::Freeze),
        ensures
            final(self).forks() == acted(
                old(self).forks(),
                old(self).count as int,
                ForkAct::Freeze,
            ),
            *final(self) == (CloneRun { frozen: true, ..*old(self) }),
            r@ == "==> frozen: "@ + text::decimal(threads as nat) + " guest thread"@ + plural(
                threads as int,
            ) + " in "@ + elapsed@,
    {
        self.frozen = true;
        let mut out = "==> frozen: ".to_owned();
        text::push_decimal(&mut out, threads as u64);
        out.append(" guest thread");
        out.append(plural_ending(threads));
        out.append(" in ");
        out.append(elapsed);
        out
    }

    /// A clone has been forked; the line that says so. `elapsed` is the time
    /// it took, in words.
    pub fn forked(&mut self, pid: u32, endpoint: &Address, elapsed: &str) -> (r: String)
        requires
            may_act(old(self).forks(), ForkAct::Fork),
        ensures
            final(self).clones@ == old(self).clones@.push(pid),
            final(self).forks() == acted(
                old(self).forks(),
                old(self).count as int,
                ForkAct::Fork,
            ),
            *final(self) == (CloneRun {
                clones: final(self).clones,
                due: final(self).due,
                ..*old(self)
            }),
            r@ == "==> clone "@ + text::decimal(pid as nat) + " is listening on host port "@
                + text::decimal(endpoint.port as nat) + " ("@ + net::address_text(endpoint@)
                + "), forked in "@ + elapsed@,
    {
        self.clones.push(pid);
        self.due = self.due - 1;
        let mut out = "==> clone ".to_owned();
        text::push_decimal(&mut out, pid as u64);
        out.append(" is listening on host port ");
        text::push_decimal(&mut out, endpoint.port as u64);
        out.append(" (");
        out.append(endpoint.text().as_str());
        out.append("), forked in ");
        out.append(elapsed);
        out
    }
}

/// What happens to the clones of a run.
pub enum CloneEvent {
    Forked(u32),
    Exited(u32, i32),
}

/// The clones a run knows after its events, and whether one has failed.
pub open spec fn clones_after(events: Seq<CloneEvent>) -> (Seq<u32>, bool)
    decreases events.len(),
{
    if events.len() == 0 {
        (Seq::empty(), false)
    } else {
        let (clones, failed) = clones_after(events.drop_last());
        match events.last() {
            CloneEvent::Forked(pid) => (clones.push(pid), failed),
            CloneEvent::Exited(pid, status) => (without(clones, pid), failed || status != 0),
        }
    }
}

/// Whether a clone was forked and has not exited since.
pub open spec fn is_live(events: Seq<CloneEvent>, pid: u32) -> bool
    decreases events.len(),
{
    if events.len() == 0 {
        false
    } else {
        match events.last() {
            CloneEvent::Forked(forked) => forked == pid || is_live(events.drop_last(), pid),
            CloneEvent::Exited(gone, _) => gone != pid && is_live(events.drop_last(), pid),
        }
    }
}

proof fn lemma_without(clones: Seq<u32>, gone: u32, pid: u32)
    ensures
        without(clones, gone).contains(pid) == (pid != gone && clones.contains(pid)),
    decreases clones.len(),
{
    if clones.len() > 0 {
        let shorter = clones.drop_last();
        lemma_without(shorter, gone, pid);
        let rest = without(shorter, gone);
        if shorter.contains(pid) {
            let k = choose|k: int| 0 <= k < shorter.len() && shorter[k] == pid;
            assert(clones[k] == pid);
        }
        if clones.contains(pid) && clones.last() != pid {
            let k = choose|k: int| 0 <= k < clones.len() && clones[k] == pid;
            assert(shorter[k] == pid);
        }
        if clones.last() != gone {
            let all = rest.push(clones.last());
            if rest.contains(pid) {
                let k = choose|k: int| 0 <= k < rest.len() && rest[k] == pid;
                assert(all[k] == pid);
            }
            assert(all[rest.len() as int] == clones.last());
            if all.contains(pid) && clones.last() != pid {
                let k = choose|k: int| 0 <= k < all.len() && all[k] == pid;
                assert(rest[k] == pid);
            }
        }
        assert(clones[clones.len() - 1] == clones.last());
    }
}

/// The clones a run waits for are those that were forked and have not exited.
pub proof fn law_the_run_waits_for_every_clone(events: Seq<CloneEvent>, pid: u32)
    ensures
        clones_after(events).0.contains(pid) == is_live(events, pid),
    decreases events.len(),
{
    if events.len() > 0 {
        let before = events.drop_last();
        law_the_run_waits_for_every_clone(before, pid);
        let clones = clones_after(before).0;
        match events.last() {
            CloneEvent::Forked(forked) => {
                let now = clones.push(forked);
                assert(now[clones.len() as int] == forked);
                if clones.contains(pid) {
                    let k = choose|k: int| 0 <= k < clones.len() && clones[k] == pid;
                    assert(now[k] == pid);
                }
                if now.contains(pid) && forked != pid {
                    let k = choose|k: int| 0 <= k < now.len() && now[k] == pid;
                    assert(clones[k] == pid);
                }
            },
            CloneEvent::Exited(gone, _) => {
                lemma_without(clones, gone, pid);
            },
        }
    }
}

/// A run with clones fails if and only if one of its clones did.
pub proof fn law_the_run_fails_with_a_clone(events: Seq<CloneEvent>)
    ensures
        clones_after(events).1 == exists|k: int|
            0 <= k < events.len() && (#[trigger] events[k] matches CloneEvent::Exited(_, status)
                && status != 0),
    decreases events.len(),
{
    if events.len() > 0 {
        let before = events.drop_last();
        law_the_run_fails_with_a_clone(before);
        if clones_after(before).1 {
            let k = choose|k: int|
                0 <= k < before.len() && (#[trigger] before[k] matches CloneEvent::Exited(_, status)
                    && status != 0);
            assert(events[k] == before[k]);
        }
        assert(events[events.len() - 1] == events.last());
        assert forall|k: int| 0 <= k < before.len() implies #[trigger] events[k] == before[k] by {
        }
    }
}

/// How far a run that forks `count` clones each time is after these acts.
pub open spec fn fork_state(count: int, acts: Seq<ForkAct>) -> ForkState
    decreases acts.len(),
{
    if acts.len() == 0 {
        ForkState { frozen: false, due: 0 }
    } else {
        acted(fork_state(count, acts.drop_last()), count, acts.last())
    }
}

/// Whether a run may do these one after the other.
pub open spec fn may_do(count: int, acts: Seq<ForkAct>) -> bool {
    forall|k: int|
        0 <= k < acts.len() ==> may_act(fork_state(count, acts.take(k)), #[trigger] acts[k])
}

/// How often something is among the acts.
pub open spec fn times(acts: Seq<ForkAct>, act: ForkAct) -> int
    decreases acts.len(),
{
    if acts.len() == 0 {
        0
    } else {
        times(acts.drop_last(), act) + if acts.last() == act {
            1int
        } else {
            0
        }
    }
}

/// The template is frozen at most once and before the first fork, and each
/// trigger forks the same number of clones: what has been forked and what is
/// still due make up that number for every trigger, and nothing is due when
/// the next one is taken.
pub proof fn law_each_trigger_forks_its_clones(count: int, acts: Seq<ForkAct>)
    requires
        count >= 0,
        may_do(count, acts),
    ensures
        times(acts, ForkAct::Freeze) == if fork_state(count, acts).frozen {
            1int
        } else {
            0
        },
        times(acts, ForkAct::Fork) > 0 ==> fork_state(count, acts).frozen,
        fork_state(count, acts).due >= 0,
        times(acts, ForkAct::Fork) + fork_state(count, acts).due == times(acts, ForkAct::Trigger)
            * count,
    decreases acts.len(),
{
    if acts.len() > 0 {
        let before = acts.drop_last();
        let last = acts.len() - 1;
        assert(acts.take(last) =~= before);
        assert(may_act(fork_state(count, acts.take(last)), acts[last]));
        assert forall|k: int| 0 <= k < before.len() implies may_act(
            fork_state(count, before.take(k)),
            #[trigger] before[k],
        ) by {
            assert(before.take(k) =~= acts.take(k));
            assert(may_act(fork_state(count, acts.take(k)), acts[k]));
        }
        law_each_trigger_forks_its_clones(count, before);
        let triggers = times(before, ForkAct::Trigger);
        assert((triggers + 1) * count == triggers * count + count) by (nonlinear_arith);
    }
}

/// The lease `request` asks for, in seconds: short, because it renews often; an
/// instance whose holder dies is gone within half a minute.
pub const REQUEST_TTL: u64 = 30;

/// How often `request` renews its instance, in seconds.
pub const REQUEST_RENEW_INTERVAL: u64 = 10;

/// What `request` asks the manager for.
pub fn request_body(service: &str, recipe: Option<&[u8]>) -> (r: CreateInstance)
    requires
        recipe matches Some(recipe) ==> (recipe@.len() + 2) / 3 * 4 <= isize::MAX,
    ensures
        r.service@ == named(service@).0,
        (match r.version {
            Some(version) => Some(version@),
            None => None,
        }) == named(service@).1,
        match recipe {
            Some(recipe) => {
                &&& r.recipe is Some
                &&& (r.recipe->0)@ == api::base64_encoded(recipe@)
                &&& api::base64_decoded((r.recipe->0)@) == Ok::<Seq<u8>, Seq<char>>(recipe@)
            },
            None => r.recipe is None,
        },
        r.recipe_files@ == Seq::<String>::empty(),
        r.ttl_seconds == Some(REQUEST_TTL),
{
    let (name, version) = split_service(service);
    CreateInstance {
        service: name,
        version,
        recipe: match recipe {
            Some(recipe) => Some(api::encode_recipe(recipe)),
            None => None,
        },
        recipe_files: Vec::new(),
        ttl_seconds: Some(REQUEST_TTL),
    }
}

/// What `request` prints for a person once it holds an instance; `endpoint` is
/// the instance's, as text.
pub fn request_banner(instance: &Instance, endpoint: &str) -> (r: String)
    ensures
        r@ == line(""@) + line(
            "==> instance "@ + instance.id@ + " of "@ + instance.service@ + " "@
                + instance.version@ + " is listening on "@ + endpoint@ + "."@,
        ) + line("==> Held and renewed until stdin closes or Ctrl-C, then destroyed."@) + line(""@),
{
    let mut listening = "==> instance ".to_owned();
    listening.append(instance.id.as_str());
    listening.append(" of ");
    listening.append(instance.service.as_str());
    listening.append(" ");
    listening.append(instance.version.as_str());
    listening.append(" is listening on ");
    listening.append(endpoint);
    listening.append(".");
    let mut lines = Lines::new();
    lines.line("");
    lines.line(listening.as_str());
    lines.line("==> Held and renewed until stdin closes or Ctrl-C, then destroyed.");
    lines.line("");
    lines.0
}

/// How a held instance's stay ended.
#[derive(Clone, Copy, Debug, PartialEq, Eq, Structural)]
pub enum HoldEnd {
    /// Standard input closed, or a signal arrived.
    Released,
    /// The guest exited, with its status where the manager knew it.
    Exited(Option<i32>),
}

/// What the holder of an instance does after waiting.
#[derive(Clone, Copy, Debug, PartialEq, Eq, Structural)]
pub enum HoldStep {
    /// Renew the lease.
    Renew,
    /// Read the signal and end.
    TakeSignal,
    /// Read a line of standard input.
    ReadLine,
    /// Wait again.
    Wait,
}

/// What follows from a wait: the lease is renewed where it went by, a signal
/// ends the hold, and standard input is read.
pub fn hold_step(timed_out: bool, signal: bool, input: bool) -> (r: HoldStep)
    ensures
        r == if timed_out {
            HoldStep::Renew
        } else if signal {
            HoldStep::TakeSignal
        } else if input {
            HoldStep::ReadLine
        } else {
            HoldStep::Wait
        },
{
    if timed_out {
        HoldStep::Renew
    } else if signal {
        HoldStep::TakeSignal
    } else if input {
        HoldStep::ReadLine
    } else {
        HoldStep::Wait
    }
}

/// Whether a line that was read ends the hold: only the end of input does;
/// `read` is the line's length.
pub fn after_line(read: usize) -> (r: Option<HoldEnd>)
    ensures
        r == if read == 0 {
            Some(HoldEnd::Released)
        } else {
            None
        },
{
    if read == 0 {
        Some(HoldEnd::Released)
    } else {
        None
    }
}

/// What a failed renewal means: the end of the guest, where the manager
/// refused it and says that the guest has exited. `None` is an error.
pub fn after_failed_renewal(refused: bool, current: Option<&Instance>) -> (r: Option<HoldEnd>)
    ensures
        r == match current {
            Some(current) => if refused && current.state == InstanceState::Exited {
                Some(HoldEnd::Exited(current.exit_status))
            } else {
                None
            },
            None => None,
        },
{
    match current {
        Some(current) => if refused && current.state == InstanceState::Exited {
            Some(HoldEnd::Exited(current.exit_status))
        } else {
            None
        },
        None => None,
    }
}

/// What `request` ends with: an error where the guest exited under it.
pub fn hold_result(service: &str, end: HoldEnd) -> (r: Result<(), String>)
    ensures
        match end {
            HoldEnd::Released => r is Ok,
            HoldEnd::Exited(status) => r is Err && (r->Err_0)@ == "the "@ + service@
                + " instance exited with status "@ + match status {
                Some(status) => text::signed_decimal(status as int),
                None => "unknown"@,
            },
        },
{
    match end {
        HoldEnd::Released => Ok(()),
        HoldEnd::Exited(status) => {
            let mut error = "the ".to_owned();
            error.append(service);
            error.append(" instance exited with status ");
            match status {
                Some(status) => text::push_signed(&mut error, status),
                None => error.append("unknown"),
            }
            Err(error)
        },
    }
}

proof fn lemma_before_colon(entry: Seq<u8>, rest: Seq<u8>)
    requires
        !entry.contains(58),
    ensures
        bytes::position(entry, 58) == entry.len(),
        bytes::position(entry + seq![58u8] + rest, 58) == entry.len(),
    decreases entry.len(),
{
    let whole = entry + seq![58u8] + rest;
    if entry.len() > 0 {
        assert(entry.contains(entry[0]));
        let less = entry.drop_first();
        assert forall|i: int| 0 <= i < less.len() implies less[i] != 58 by {
            assert(entry.contains(entry[i + 1]));
        }
        lemma_before_colon(less, rest);
        assert(whole.drop_first() =~= less + seq![58u8] + rest);
        assert(whole[0] == entry[0]);
    } else {
        assert(whole[0] == 58);
    }
}

/// A list of directories is parted at colons, in its order, and what is empty
/// between two colons is no directory.
pub proof fn law_a_search_path_is_parted_at_colons(entry: Seq<u8>, rest: Seq<u8>)
    requires
        !entry.contains(58),
    ensures
        search_entries(Seq::empty()) == Seq::<Seq<u8>>::empty(),
        entry.len() > 0 ==> search_entries(entry) == seq![entry],
        entry.len() > 0 ==> search_entries(entry + seq![58u8] + rest) == seq![entry]
            + search_entries(rest),
        search_entries(seq![58u8] + rest) == search_entries(rest),
{
    let nothing = Seq::<u8>::empty();
    lemma_before_colon(nothing, rest);
    lemma_before_colon(entry, rest);
    let whole = entry + seq![58u8] + rest;
    assert(whole.take(entry.len() as int) =~= entry);
    assert(whole.skip((entry.len() + 1) as int) =~= rest);
    assert(entry.take(entry.len() as int) =~= entry);
    assert(nothing + seq![58u8] + rest =~= seq![58u8] + rest);
    assert((seq![58u8] + rest).skip(1) =~= rest);
    assert(Seq::<Seq<u8>>::empty() + search_entries(rest) =~= search_entries(rest));
}

/// Where nobody says where services are, they are looked for below the home
/// directory first, then where the machine's own and the distribution's are.
pub proof fn law_services_are_looked_for_at_home_first(home: Seq<u8>)
    requires
        home.len() > 0,
    ensures
        ({
            let dirs = default_dirs(Some(home));
            let system = default_dirs(None);
            &&& dirs.len() == 3
            &&& system.len() == 2
            &&& dirs[1] == system[0] && dirs[2] == system[1]
            &&& system[0] == vstd::utf8::encode_utf8("/usr/local/share/servicecache/services"@)
            &&& system[1] == vstd::utf8::encode_utf8("/usr/share/servicecache/services"@)
            &&& path::components(dirs[0]) == path::components(home).push(
                path::Part::Name(vstd::utf8::encode_utf8(".local"@)),
            ).push(path::Part::Name(vstd::utf8::encode_utf8("share"@))).push(
                path::Part::Name(vstd::utf8::encode_utf8("servicecache"@)),
            ).push(path::Part::Name(vstd::utf8::encode_utf8("services"@)))
        }),
{
    let a = cache::spelled(".local"@);
    let b = cache::spelled("share"@);
    let c = cache::spelled("servicecache"@);
    let d = cache::spelled("services"@);
    assert(path::is_name(a)) by {
        reveal_strlit(".local");
        lemma_ascii_name(".local"@);
    }
    assert(path::is_name(b)) by {
        reveal_strlit("share");
        lemma_ascii_name("share"@);
    }
    assert(path::is_name(c)) by {
        reveal_strlit("servicecache");
        lemma_ascii_name("servicecache"@);
    }
    assert(path::is_name(d)) by {
        reveal_strlit("services");
        lemma_ascii_name("services"@);
    }
    let one = path::joined(home, a);
    let two = path::joined(one, b);
    let three = path::joined(two, c);
    lemma_entry_below(home, a);
    lemma_entry_below(one, b);
    lemma_entry_below(two, c);
    lemma_entry_below(three, d);
}

proof fn lemma_entry_below(dir: Seq<u8>, name: Seq<u8>)
    requires
        dir.len() > 0,
        path::is_name(name),
    ensures
        path::joined(dir, name).len() > 0,
        path::components(path::joined(dir, name)) == path::components(dir).push(
            path::Part::Name(name),
        ),
{
    path::law_an_entry_stands_below_its_directory(dir, name, name);
}

proof fn lemma_ascii_name(name: Seq<char>)
    requires
        name.len() > 2,
        forall|i: int|
            0 <= i < name.len() ==> '\0' <= #[trigger] name[i] <= '\u{7f}' && name[i] != '/',
    ensures
        path::is_name(cache::spelled(name)),
{
    assert(vstd::utf8::is_ascii_chars(name));
    vstd::utf8::is_ascii_chars_encode_utf8(name);
    let bytes = cache::spelled(name);
    assert forall|i: int| 0 <= i < bytes.len() implies bytes[i] != 47 by {
        assert(name[i] as u8 == bytes[i]);
    }
    assert(bytes.len() > 2);
}

/// A service is asked for by its name, or by its name and version with an `@`
/// between them.
pub proof fn law_a_service_is_named_with_its_version(name: Seq<char>, version: Seq<char>)
    requires
        !name.contains('@'),
    ensures
        named(name) == (name, None::<Seq<char>>),
        named(name + seq!['@'] + version) == (name, Some(version)),
{
    text::law_a_split_parts_at_the_first(name, '@');
    text::law_what_is_put_apart_is_split(name, '@', version);
}

/// A service is found exactly where one installed package matches it. Where
/// none does the error repeats what was asked for, and where several do it
/// lists their versions.
pub proof fn law_one_match_is_found(packages: Seq<DiscoveredPackage>, service: Seq<char>)
    ensures
        ({
            let (name, version) = named(service);
            let found = discovery::wanted(packages, name, version);
            let error = service_error(packages, service);
            &&& error is None <==> found.len() == 1
            &&& found.len() == 0 ==> (error->0).skip((error->0).len() - service.len()) == service
            &&& found.len() > 1 ==> error == Some(
                name + " is installed in several versions ("@ + text::joined(
                    discovery::versions_at(packages, found),
                    ", "@,
                ) + "); name one as "@ + name + "@<version>"@,
            )
        }),
{
    let (name, version) = named(service);
    let found = discovery::wanted(packages, name, version);
    if found.len() == 0 {
        let said = service_error(packages, service)->0;
        assert(said.skip(said.len() - service.len()) =~= service);
    }
}

/// A list of services has, for each package in turn, a line with its name,
/// version and directory, then one for each of its files with its digest, and
/// the same for each package that it shadows.
pub proof fn law_every_service_is_listed(
    packages: Seq<DiscoveredPackage>,
    package: DiscoveredPackage,
    indent: Seq<char>,
    files: Seq<ContentDigest>,
    file: ContentDigest,
    shadows: Seq<ShadowedPackage>,
    shadow: ShadowedPackage,
)
    ensures
        services_lines(Seq::empty()) == Seq::<char>::empty(),
        services_lines(packages.push(package)) == services_lines(packages) + package_lines(package),
        (package.manifest.service.name@ + " "@ + package.manifest.service.version@ + " "@
            + path::lossy(package.manifest.directory@) + "\n"@).is_prefix_of(package_lines(package)),
        package_lines(package).len() == line(
            service_line(package.manifest, package.manifest.directory@),
        ).len() + file_lines("  "@, package.files@).len() + shadows_lines(package.shadowed@).len(),
        file_lines(indent, Seq::empty()) == Seq::<char>::empty(),
        file_lines(indent, files.push(file)) == file_lines(indent, files) + indent + file.sha256@
            + "  "@ + path::lossy(file.path@) + "\n"@,
        shadows_lines(Seq::empty()) == Seq::<char>::empty(),
        shadows_lines(shadows.push(shadow)) == shadows_lines(shadows) + "  shadowed "@
            + path::lossy(shadow.directory@) + "\n"@ + file_lines("    "@, shadow.files@),
{
    assert(packages.push(package).drop_last() =~= packages);
    assert(files.push(file).drop_last() =~= files);
    assert(shadows.push(shadow).drop_last() =~= shadows);
    let first = package.manifest.service.name@ + " "@ + package.manifest.service.version@ + " "@
        + path::lossy(package.manifest.directory@) + "\n"@;
    assert(first =~= package_lines(package).subrange(0, first.len() as int));
    assert(file_lines(indent, files.push(file)) =~= file_lines(indent, files) + indent
        + file.sha256@ + "  "@ + path::lossy(file.path@) + "\n"@);
    assert(shadows_lines(shadows.push(shadow)) =~= shadows_lines(shadows) + "  shadowed "@
        + path::lossy(shadow.directory@) + "\n"@ + file_lines("    "@, shadow.files@));
}

/// A run starts its guest only once the host is there and a prepare step, where
/// there is one, succeeded. It announces only what started, and was initialized
/// where a recipe was given. It ends well only where the guest did.
pub proof fn law_a_run_goes_step_by_step(run: ServiceRun, event: RunEvent)
    ensures
        ({
            let (stage, act) = run.stepped(event);
            &&& act == RunAct::Prepare <==> run.stage == RunStage::Spawning && event
                == RunEvent::Spawned && run.has_prepare
            &&& act == RunAct::Start <==> {
                ||| run.stage == RunStage::Spawning && event == RunEvent::Spawned
                    && !run.has_prepare
                ||| run.stage == RunStage::Preparing && event == RunEvent::Prepared(0)
            }
            &&& act == RunAct::Initialize <==> run.stage == RunStage::Starting && event
                == RunEvent::Started && run.has_recipe && run.has_initializer
            &&& act is Announce <==> {
                ||| run.stage == RunStage::Starting && event == RunEvent::Started
                    && !run.has_recipe
                ||| run.stage == RunStage::Initializing && event == RunEvent::Initialized(0)
            }
            &&& act matches RunAct::Announce { uninitialized } ==> uninitialized == (
            run.has_initializer && run.stage == RunStage::Starting)
            &&& act == RunAct::Finish <==> run.stage == RunStage::Serving && event
                == RunEvent::Exited(0)
            &&& act is Prepare ==> stage == RunStage::Preparing
            &&& act is Start ==> stage == RunStage::Starting
            &&& act is Initialize ==> stage == RunStage::Initializing
            &&& act is Announce ==> stage == RunStage::Serving
            &&& act is Finish || act is Fail <==> stage == RunStage::Ended && run.stage
                != RunStage::Ended
            &&& act is Wait ==> stage == run.stage
        }),
{
}

/// A step that exits with a status other than zero ends the run, with an error
/// that says whose status it is and what it is.
pub proof fn law_a_failed_step_ends_the_run(run: ServiceRun, status: i32)
    requires
        status != 0,
    ensures
        ({
            let shown = text::signed_decimal(status as int);
            let prepared = run.stepped(RunEvent::Prepared(status));
            let initialized = run.stepped(RunEvent::Initialized(status));
            let exited = run.stepped(RunEvent::Exited(status));
            &&& run.stage == RunStage::Preparing ==> prepared == (
                RunStage::Ended,
                RunAct::Fail("the prepare step exited with status "@ + shown),
            )
            &&& run.stage == RunStage::Initializing ==> initialized == (
                RunStage::Ended,
                RunAct::Fail("the initializer exited with status "@ + shown),
            )
            &&& run.stage == RunStage::Serving ==> exited == (
                RunStage::Ended,
                RunAct::Fail(run.name@ + " exited with status "@ + shown),
            )
            &&& run.stage == RunStage::Starting && run.has_recipe && !run.has_initializer
                ==> run.stepped(RunEvent::Started) == (
                RunStage::Ended,
                RunAct::Fail(run.name@ + " has no initializer to give the recipe to"@),
            )
        }),
{
    let shown = text::signed_decimal(status as int);
    reveal_strlit("the prepare step");
    reveal_strlit("the initializer");
    reveal_strlit(" exited with status ");
    reveal_strlit("the prepare step exited with status ");
    reveal_strlit("the initializer exited with status ");
    assert("the prepare step exited with status "@ =~= "the prepare step"@
        + " exited with status "@);
    assert("the initializer exited with status "@ =~= "the initializer"@ + " exited with status "@);
}

/// A clone that exits is not waited for any more, and every other clone is, in
/// the order in which they were forked.
pub proof fn law_only_the_clone_that_exits_is_forgotten(clones: Seq<u32>, gone: u32, pid: u32)
    ensures
        without(clones, gone).contains(pid) <==> pid != gone && clones.contains(pid),
        !clones.contains(gone) ==> without(clones, gone) == clones,
        clones.no_duplicates() && clones.contains(gone) ==> without(clones, gone).len()
            == clones.len() - 1,
    decreases clones.len(),
{
    lemma_without(clones, gone, pid);
    if clones.len() > 0 {
        let rest = clones.drop_last();
        law_only_the_clone_that_exits_is_forgotten(rest, gone, pid);
        assert(clones =~= rest.push(clones.last()));
        assert(clones[clones.len() - 1] == clones.last());
        assert forall|i: int| 0 <= i < rest.len() implies #[trigger] rest[i] == clones[i] by {}
        if rest.contains(gone) {
            let i = choose|i: int| 0 <= i < rest.len() && rest[i] == gone;
            assert(clones[i] == gone);
        }
        if !clones.contains(gone) {
            assert(clones.last() != gone);
        }
        if clones.contains(gone) {
            let i = choose|i: int| 0 <= i < clones.len() && clones[i] == gone;
            if i < rest.len() {
                assert(rest[i] == gone);
            }
        }
    }
}

/// What a run says names what it is about: the service, its port on the host
/// and in the guest, the process to signal and how many clones are forked.
pub proof fn law_a_run_says_where_it_listens(
    name: Seq<char>,
    endpoint: Address,
    listen_port: u16,
    pid: u32,
    count: usize,
    status: i32,
)
    ensures
        listening_line(name, endpoint, listen_port) == "==> "@ + name
            + " is listening on host port "@ + text::decimal(endpoint.port as nat) + " ("@
            + net::address_text(endpoint@) + "; guest port "@ + text::decimal(listen_port as nat)
            + "). Ctrl-C to stop."@,
        ("==> Enter here, or `kill -USR1 "@ + text::decimal(pid as nat)).is_prefix_of(
            forking_line(pid, count),
        ),
        count == 1 ==> forking_line(pid, count) == "==> Enter here, or `kill -USR1 "@
            + text::decimal(pid as nat) + "`, freezes it and forks 1 clone."@,
        count != 1 ==> forking_line(pid, count) == "==> Enter here, or `kill -USR1 "@
            + text::decimal(pid as nat) + "`, freezes it and forks "@ + text::decimal(count as nat)
            + " clones."@,
        clone_exited_line(pid, status) == "==> clone "@ + text::decimal(pid as nat)
            + " exited with status "@ + text::signed_decimal(status as int),
{
    let said = forking_line(pid, count);
    let start = "==> Enter here, or `kill -USR1 "@ + text::decimal(pid as nat);
    assert(start =~= said.subrange(0, start.len() as int));
    reveal_strlit("`, freezes it and forks ");
    reveal_strlit("`, freezes it and forks 1 clone.");
    reveal_strlit(" clone");
    reveal_strlit(" clones.");
    reveal_strlit(".");
    reveal_strlit("s");
    reveal_strlit("");
    if count == 1 {
        assert(text::decimal(1) =~= seq!['1']) by {
            reveal_with_fuel(text::decimal, 2);
        }
        assert(said =~= start + "`, freezes it and forks 1 clone."@);
    } else {
        assert(said =~= start + "`, freezes it and forks "@ + text::decimal(count as nat)
            + " clones."@);
    }
    assert(clone_exited_line(pid, status) =~= "==> clone "@ + text::decimal(pid as nat)
        + " exited with status "@ + text::signed_decimal(status as int));
}

/// Clones are forked only of what is frozen, and only those that are due; it is
/// frozen once, and a new request waits until none is due.
pub proof fn law_what_may_be_done_to_a_template(state: ForkState, count: int)
    ensures
        may_act(state, ForkAct::Trigger) <==> state.due == 0,
        may_act(state, ForkAct::Freeze) <==> !state.frozen,
        may_act(state, ForkAct::Fork) <==> state.frozen && state.due > 0,
        acted(state, count, ForkAct::Trigger).due == count,
        acted(state, count, ForkAct::Trigger).frozen == state.frozen,
        acted(state, count, ForkAct::Freeze).frozen,
        acted(state, count, ForkAct::Freeze).due == state.due,
        acted(state, count, ForkAct::Fork).due == state.due - 1,
        acted(state, count, ForkAct::Fork).frozen == state.frozen,
{
}

/// An event that a template does not send is shown as it came.
pub proof fn law_an_unexpected_event_is_shown(event: Reply)
    ensures
        unexpected_event(event) == "unexpected event from the template: "@ + protocol::spelled_out(
            event@,
        ),
{
}

/// What a run does is seen as it is.
pub proof fn law_what_a_run_does_is_seen(action: RunAction)
    ensures
        action is Wait <==> action@ is Wait,
        action is Prepare <==> action@ is Prepare,
        action is Start <==> action@ is Start,
        action is Initialize <==> action@ is Initialize,
        action is Finish <==> action@ is Finish,
        action matches RunAction::Announce { uninitialized } ==> action@ == (RunAct::Announce {
            uninitialized,
        }),
        action matches RunAction::Fail(error) ==> action@ == RunAct::Fail(error@),
{
}

/// A directory that is given is taken as it is.
pub proof fn law_a_given_directory_is_taken(dir: &UnixPath)
    ensures
        path_view(Some(dir)) == Some(dir@),
        path_view(None) is None,
{
}

} // verus!
