//! The manager's HTTP API: what a request for an instance asks for, what it is
//! refused with, and what the instances answer. A request brings up, or finds,
//! a frozen template and is answered with a clone of it; instances live until
//! deleted or until their TTL runs out unrenewed.

pub mod api;
pub mod client;
pub mod instances;
pub mod recipes;
pub mod templates;

use crate::discovery;
use crate::discovery::DiscoveredPackage;
use crate::discovery::SelectError;
use crate::discovery::ServiceIndex;
use crate::host::net::Address;
use crate::manifest::Manifest;
use crate::path;
use crate::path::UnixPath;
use crate::text;
use api::CreateInstance;
use api::Instance;
use api::Problem;
use api::ProblemView;
use api::RenewInstance;
use api::ServiceEntry;
use instances::Entry;
use instances::GuestState;
use instances::Registry;
use recipes::Roots;
use vstd::prelude::*;

verus! {

/// How many seconds an instance lives without a renewal, unless the request
/// says.
pub const DEFAULT_TTL: u64 = 300;

/// The longest TTL a request may ask for, in seconds.
pub const MAX_TTL_SECONDS: u64 = 86400;

/// The largest request body: room for the largest recipe the control channel
/// accepts, base64-encoded.
pub const MAX_BODY: usize = 512 * 1024 * 1024;

/// The TTL a request asks for, in seconds; `invalid-ttl` out of range.
pub fn ttl_duration(seconds: Option<u64>) -> (r: Result<Option<u64>, Problem>)
    ensures
        match seconds {
            None => r == Ok::<Option<u64>, Problem>(None),
            Some(asked) => if 1 <= asked <= MAX_TTL_SECONDS {
                r == Ok::<Option<u64>, Problem>(Some(asked))
            } else {
                r is Err && (r->Err_0)@ == api::invalid_ttl_problem(asked as nat)
            },
        },
{
    match seconds {
        None => Ok(None),
        Some(asked) => if 1 <= asked && asked <= MAX_TTL_SECONDS {
            Ok(Some(asked))
        } else {
            Err(Problem::invalid_ttl(asked))
        },
    }
}

/// An instance identifier made of eight random bytes: their sixteen hex
/// digits.
pub fn new_id(bytes: &[u8; 8]) -> (r: String)
    ensures
        r@ == text::hex(bytes@),
        r@.len() == 16,
{
    text::hex_text(bytes)
}

/// Different bytes make different identifiers.
pub proof fn law_ids_are_distinct(a: Seq<u8>, b: Seq<u8>)
    requires
        a.len() == b.len(),
        a != b,
    ensures
        text::hex(a) != text::hex(b),
{
    if text::hex(a) == text::hex(b) {
        assert forall|i: int| 0 <= i < a.len() implies a[i] == b[i] by {
            let high = text::hex(a)[2 * i];
            let low = text::hex(a)[2 * i + 1];
            assert(high == text::hex_digit(a[i] as int / 16));
            assert(low == text::hex_digit(a[i] as int % 16));
            assert(high == text::hex(b)[2 * i]);
            assert(low == text::hex(b)[2 * i + 1]);
            assert(high == text::hex_digit(b[i] as int / 16));
            assert(low == text::hex_digit(b[i] as int % 16));
        }
        assert(a =~= b);
    }
}

/// The installed services, in index order.
pub fn list_services(services: &ServiceIndex) -> (r: Vec<ServiceEntry>)
    ensures
        r@.len() == services.packages@.len(),
        forall|i: int|
            0 <= i < r@.len() ==> {
                let entry = #[trigger] r@[i];
                let service = services.packages@[i].manifest.service;
                entry.name == service.name && entry.version == service.version
            },
{
    let mut listed: Vec<ServiceEntry> = Vec::new();
    let mut i: usize = 0;
    while i < services.packages.len()
        invariant
            i <= services.packages@.len(),
            listed@.len() == i,
            forall|k: int|
                0 <= k < i ==> {
                    let entry = #[trigger] listed@[k];
                    let service = services.packages@[k].manifest.service;
                    entry.name == service.name && entry.version == service.version
                },
        decreases services.packages@.len() - i,
    {
        let service = &services.packages[i].manifest.service;
        listed.push(
            ServiceEntry { name: service.name.clone(), version: service.version.clone() },
        );
        i = i + 1;
    }
    listed
}

/// The running instances, in id order.
pub fn list_instances(registry: &Registry, now: u128) -> (r: Vec<Instance>)
    requires
        registry.valid(),
    ensures
        r@.len() == registry.entries@.len(),
        forall|i: int|
            0 <= i < r@.len() ==> registry.entries@[i].describes(now, #[trigger] r@[i]),
{
    let mut listed: Vec<Instance> = Vec::new();
    let mut i: usize = 0;
    while i < registry.entries.len()
        invariant
            registry.valid(),
            i <= registry.entries@.len(),
            listed@.len() == i,
            forall|k: int|
                0 <= k < i ==> registry.entries@[k].describes(now, #[trigger] listed@[k]),
        decreases registry.entries@.len() - i,
    {
        listed.push(registry.entries[i].describe(now));
        i = i + 1;
    }
    listed
}

/// What stops the selection of the service a request names.
pub open spec fn service_problem(
    packages: Seq<DiscoveredPackage>,
    name: Seq<char>,
    version: Option<Seq<char>>,
) -> Option<ProblemView> {
    let found = discovery::wanted(packages, name, version);
    if found.len() == 0 {
        Some(api::unknown_service_problem(name, version))
    } else if found.len() == 1 {
        None
    } else {
        Some(api::ambiguous_version_problem(name, discovery::versions_at(packages, found)))
    }
}

/// The service a request names: `unknown-service` where none is installed,
/// `ambiguous-version` where several are and none is named.
pub fn select_service<'a>(services: &'a ServiceIndex, request: &CreateInstance) -> (r: Result<
    &'a Manifest,
    Problem,
>)
    ensures
        ({
            let name = request.service@;
            let version = text::optional_view(request.version);
            match service_problem(services.packages@, name, version) {
                Some(problem) => r is Err && (r->Err_0)@ == problem,
                None => r is Ok && *(r->Ok_0) == services.packages@[discovery::wanted(
                    services.packages@,
                    name,
                    version,
                )[0]].manifest,
            }
        }),
{
    let version: Option<&str> = match &request.version {
        Some(version) => Some(version.as_str()),
        None => None,
    };
    match services.select(request.service.as_str(), version) {
        Ok(manifest) => Ok(manifest),
        Err(SelectError::NotFound) => Err(
            Problem::unknown_service(request.service.as_str(), version),
        ),
        Err(SelectError::Ambiguous(versions)) => Err(
            Problem::ambiguous_version(request.service.as_str(), &versions),
        ),
    }
}

/// Where the recipe of a request comes from.
#[derive(Debug)]
pub enum RecipeSource {
    /// There is none: the initializer does not run.
    Absent,
    /// The request carries it.
    Inline(Vec<u8>),
    /// The server reads it from files, in this order.
    Files(Vec<String>),
}

/// Where a recipe comes from, over the bytes and texts themselves.
pub enum Source {
    Absent,
    Inline(Seq<u8>),
    Files(Seq<Seq<char>>),
}

impl View for RecipeSource {
    type V = Source;

    open spec fn view(&self) -> Source {
        match self {
            RecipeSource::Absent => Source::Absent,
            RecipeSource::Inline(recipe) => Source::Inline(recipe@),
            RecipeSource::Files(files) => Source::Files(text::texts(files@)),
        }
    }
}

/// Whether a server accepts recipe files: it was given roots to read them
/// under, and the connection is by the user that runs it.
pub open spec fn accepts_files(roots: Seq<UnixPath>, same_user: bool) -> bool {
    roots.len() > 0 && same_user
}

/// Why recipe files are refused.
pub open spec fn files_refusal(roots: Seq<UnixPath>) -> Seq<char> {
    if roots.len() == 0 {
        "the server was started without --recipe-root"@
    } else {
        "the connection is not by the user the server runs as"@
    }
}

/// What a request's recipe, as decoded, and its recipe files come to.
pub open spec fn sourced(
    recipe: Option<Result<Seq<u8>, ProblemView>>,
    files: Seq<Seq<char>>,
    roots: Seq<UnixPath>,
    same_user: bool,
) -> Result<Source, ProblemView> {
    match recipe {
        Some(Err(problem)) => Err(problem),
        Some(Ok(recipe)) => if files.len() > 0 {
            Err(api::invalid_body_problem("recipe and recipe_files are both given"@))
        } else {
            Ok(Source::Inline(recipe))
        },
        None => if files.len() == 0 {
            Ok(Source::Absent)
        } else if accepts_files(roots, same_user) {
            Ok(Source::Files(files))
        } else {
            Err(api::recipe_files_refused_problem(files_refusal(roots)))
        },
    }
}

/// The view of what a decoding of a recipe came to.
pub open spec fn decoded_view(recipe: Option<Result<Vec<u8>, Problem>>) -> Option<
    Result<Seq<u8>, ProblemView>,
> {
    match recipe {
        Some(Ok(recipe)) => Some(Ok(recipe@)),
        Some(Err(problem)) => Some(Err(problem@)),
        None => None,
    }
}

/// Where the recipe comes from, given what the request's own decodes to.
pub fn recipe_source(
    recipe: Option<Result<Vec<u8>, Problem>>,
    files: &Vec<String>,
    roots: &Roots,
    same_user: bool,
) -> (r: Result<RecipeSource, Problem>)
    ensures
        match sourced(decoded_view(recipe), text::texts(files@), roots.0@, same_user) {
            Ok(source) => r is Ok && (r->Ok_0)@ == source,
            Err(problem) => r is Err && (r->Err_0)@ == problem,
        },
{
    match recipe {
        Some(Err(problem)) => Err(problem),
        Some(Ok(recipe)) => if files.len() > 0 {
            Err(Problem::invalid_body("recipe and recipe_files are both given"))
        } else {
            Ok(RecipeSource::Inline(recipe))
        },
        None => {
            if files.len() == 0 {
                return Ok(RecipeSource::Absent);
            }
            if roots.is_empty() {
                return Err(
                    Problem::recipe_files_refused("the server was started without --recipe-root"),
                );
            }
            if !same_user {
                return Err(
                    Problem::recipe_files_refused(
                        "the connection is not by the user the server runs as",
                    ),
                );
            }
            Ok(RecipeSource::Files(text::copied_texts(files)))
        },
    }
}

/// What a request for an instance comes to.
#[derive(Debug)]
pub struct Plan<'a> {
    pub manifest: &'a Manifest,
    pub recipe: RecipeSource,
    pub ttl_seconds: u64,
}

/// What the recipe field of a request decodes to.
pub open spec fn decoded_recipe(recipe: Option<String>) -> Option<Result<Seq<u8>, ProblemView>> {
    match recipe {
        Some(recipe) => Some(
            match api::base64_decoded(recipe@) {
                Ok(bytes) => Ok(bytes),
                Err(error) => Err(api::invalid_recipe_problem(error)),
            },
        ),
        None => None,
    }
}

/// What a request is refused with before anything is brought up: its TTL, its
/// service and its recipe are looked at in this order.
pub open spec fn plan_problem(
    packages: Seq<DiscoveredPackage>,
    request: CreateInstance,
    recipe: Option<Result<Seq<u8>, ProblemView>>,
    roots: Seq<UnixPath>,
    same_user: bool,
) -> Option<ProblemView> {
    let version = text::optional_view(request.version);
    let found = discovery::wanted(packages, request.service@, version);
    if request.ttl_seconds matches Some(asked) && !(1 <= asked <= MAX_TTL_SECONDS) {
        Some(api::invalid_ttl_problem(request.ttl_seconds->0 as nat))
    } else if service_problem(packages, request.service@, version) is Some {
        service_problem(packages, request.service@, version)
    } else {
        match sourced(recipe, text::texts(request.recipe_files@), roots, same_user) {
            Err(problem) => Some(problem),
            Ok(source) => if source !is Absent && packages[found[0]].manifest.initializer is None {
                Some(api::no_initializer_problem(request.service@))
            } else {
                None
            },
        }
    }
}

/// Whether a plan is what a request that is not refused comes to.
pub open spec fn is_plan(
    packages: Seq<DiscoveredPackage>,
    request: CreateInstance,
    recipe: Option<Result<Seq<u8>, ProblemView>>,
    roots: Seq<UnixPath>,
    same_user: bool,
    plan: Plan,
) -> bool {
    let version = text::optional_view(request.version);
    let found = discovery::wanted(packages, request.service@, version);
    &&& *plan.manifest == packages[found[0]].manifest
    &&& sourced(recipe, text::texts(request.recipe_files@), roots, same_user) == Ok::<
        Source,
        ProblemView,
    >(plan.recipe@)
    &&& plan.ttl_seconds == match request.ttl_seconds {
        Some(asked) => asked,
        None => DEFAULT_TTL,
    }
}

/// What a request for an instance comes to, or what it is refused with.
pub fn plan_instance<'a>(
    services: &'a ServiceIndex,
    request: &CreateInstance,
    roots: &Roots,
    same_user: bool,
) -> (r: Result<Plan<'a>, Problem>)
    ensures
        ({
            let recipe = decoded_recipe(request.recipe);
            match plan_problem(services.packages@, *request, recipe, roots.0@, same_user) {
                Some(problem) => r is Err && (r->Err_0)@ == problem,
                None => r is Ok && is_plan(
                    services.packages@,
                    *request,
                    recipe,
                    roots.0@,
                    same_user,
                    r->Ok_0,
                ),
            }
        }),
{
    let recipe = match &request.recipe {
        Some(recipe) => Some(api::decode_recipe(recipe.as_str())),
        None => None,
    };
    plan_with(services, request, recipe, roots, same_user)
}

/// The same, given what the recipe field of the request decodes to.
pub fn plan_with<'a>(
    services: &'a ServiceIndex,
    request: &CreateInstance,
    recipe: Option<Result<Vec<u8>, Problem>>,
    roots: &Roots,
    same_user: bool,
) -> (r: Result<Plan<'a>, Problem>)
    ensures
        ({
            let recipe = decoded_view(recipe);
            match plan_problem(services.packages@, *request, recipe, roots.0@, same_user) {
                Some(problem) => r is Err && (r->Err_0)@ == problem,
                None => r is Ok && is_plan(
                    services.packages@,
                    *request,
                    recipe,
                    roots.0@,
                    same_user,
                    r->Ok_0,
                ),
            }
        }),
{
    let ttl_seconds: u64 = match ttl_duration(request.ttl_seconds) {
        Ok(Some(ttl)) => ttl,
        Ok(None) => DEFAULT_TTL,
        Err(problem) => {
            return Err(problem);
        },
    };
    let manifest = match select_service(services, request) {
        Ok(manifest) => manifest,
        Err(problem) => {
            return Err(problem);
        },
    };
    let recipe = match recipe_source(recipe, &request.recipe_files, roots, same_user) {
        Ok(recipe) => recipe,
        Err(problem) => {
            return Err(problem);
        },
    };
    let absent: bool = match &recipe {
        RecipeSource::Absent => true,
        _ => false,
    };
    if !absent && manifest.initializer.is_none() {
        return Err(Problem::no_initializer(request.service.as_str()));
    }
    Ok(Plan { manifest, recipe, ttl_seconds })
}

/// What a failed fork is followed by.
#[derive(Debug)]
pub enum Retry {
    /// Forget the template and bring it up once more.
    Rebuild,
    /// Answer with the problem.
    Answer(Problem),
}

/// After a failed fork the template is forgotten; a request brings it up once
/// more and no oftener.
pub fn after_failed_fork(rebuilt: bool, problem: Problem) -> (r: Retry)
    ensures
        r == if rebuilt {
            Retry::Answer(problem)
        } else {
            Retry::Rebuild
        },
{
    if rebuilt {
        Retry::Answer(problem)
    } else {
        Retry::Rebuild
    }
}

/// A created instance, as it is answered.
#[derive(Debug)]
pub struct Created {
    pub instance: Instance,
    /// The instance's URL.
    pub location: String,
}

/// Whether two registries hold the same but for one id.
pub open spec fn keeps_the_others(before: Registry, after: Registry, id: Seq<char>) -> bool {
    forall|other: Seq<char>|
        other != id ==> #[trigger] instances::lookup(after.entries@, other) == instances::lookup(
            before.entries@,
            other,
        )
}

/// Whether a registry holds the instance that a plan asked for, with a lease
/// that began at `now`.
pub open spec fn is_created(
    registry: Registry,
    id: Seq<char>,
    plan: Plan,
    endpoint: Address,
    now: u128,
) -> bool {
    let held = instances::lookup(registry.entries@, id);
    &&& held is Some
    &&& held->0.id@ == id
    &&& held->0.service == plan.manifest.service.name
    &&& held->0.version == plan.manifest.service.version
    &&& held->0.endpoint == endpoint
    &&& held->0.state == GuestState::Running
    &&& held->0.lease.ttl_seconds == plan.ttl_seconds
    &&& held->0.lease.expires_at == instances::expiry(now as int, plan.ttl_seconds as int)
}

/// Holds a clone that has been forked as an instance whose lease begins now.
pub fn create_instance(
    registry: &mut Registry,
    id: &str,
    plan: &Plan,
    endpoint: Address,
    now: u128,
) -> (r: Created)
    requires
        old(registry).valid(),
        instances::can_lease(now as int, plan.ttl_seconds as int),
    ensures
        final(registry).valid(),
        is_created(*final(registry), id@, *plan, endpoint, now),
        instances::lookup(final(registry).entries@, id@)->0.describes(now, r.instance),
        keeps_the_others(*old(registry), *final(registry), id@),
        r.location@ == client::instance_path(id@),
{
    let entry = Entry::adopt(
        id.to_owned(),
        plan.manifest.service.name.clone(),
        plan.manifest.service.version.clone(),
        endpoint,
        plan.ttl_seconds,
        now,
    );
    let instance = entry.describe(now);
    registry.insert(entry);
    let mut location = client::INSTANCES_PATH.to_owned();
    location.append("/");
    location.append(id);
    Created { instance, location }
}

/// Whether a registry answers a question after an instance so.
pub open spec fn answers(
    registry: Registry,
    id: Seq<char>,
    now: u128,
    answer: Result<Instance, Problem>,
) -> bool {
    match instances::lookup(registry.entries@, id) {
        Some(entry) => answer is Ok && entry.describes(now, answer->Ok_0),
        None => answer is Err && (answer->Err_0)@ == api::unknown_instance_problem(id),
    }
}

/// An instance's state.
pub fn get_instance(registry: &Registry, id: &str, now: u128) -> (r: Result<Instance, Problem>)
    requires
        registry.valid(),
    ensures
        answers(*registry, id@, now, r),
{
    match registry.get(id) {
        Some(entry) => Ok(entry.describe(now)),
        None => Err(Problem::unknown_instance(id)),
    }
}

/// Destroys an instance: gives it back to be stopped.
pub fn delete_instance(registry: &mut Registry, id: &str) -> (r: Result<Entry, Problem>)
    requires
        old(registry).valid(),
    ensures
        final(registry).valid(),
        match instances::lookup(old(registry).entries@, id@) {
            Some(entry) => r == Ok::<Entry, Problem>(entry),
            None => r is Err && (r->Err_0)@ == api::unknown_instance_problem(id@),
        },
        instances::lookup(final(registry).entries@, id@) is None,
        keeps_the_others(*old(registry), *final(registry), id@),
{
    match registry.remove(id) {
        Some(entry) => Ok(entry),
        None => Err(Problem::unknown_instance(id)),
    }
}

/// What a renewal is refused with.
pub open spec fn renewal_problem(
    held: Option<Entry>,
    id: Seq<char>,
    ttl_seconds: Option<u64>,
) -> Option<ProblemView> {
    if ttl_seconds matches Some(asked) && !(1 <= asked <= MAX_TTL_SECONDS) {
        Some(api::invalid_ttl_problem(ttl_seconds->0 as nat))
    } else {
        match held {
            None => Some(api::unknown_instance_problem(id)),
            Some(entry) => if entry.state == GuestState::Running {
                None
            } else {
                Some(api::instance_exited_problem(id))
            },
        }
    }
}

/// Restarts an instance's TTL so it lives on.
pub fn renew_instance(
    registry: &mut Registry,
    id: &str,
    request: &RenewInstance,
    now: u128,
) -> (r: Result<Instance, Problem>)
    requires
        old(registry).valid(),
        renewal_problem(
            instances::lookup(old(registry).entries@, id@),
            id@,
            request.ttl_seconds,
        ) is None ==> instances::can_lease(
            now as int,
            (match request.ttl_seconds {
                Some(ttl) => ttl as int,
                None => instances::lookup(
                    old(registry).entries@,
                    id@,
                )->0.lease.ttl_seconds as int,
            }),
        ),
    ensures
        final(registry).valid(),
        ({
            let held = instances::lookup(old(registry).entries@, id@);
            match renewal_problem(held, id@, request.ttl_seconds) {
                Some(problem) => r is Err && (r->Err_0)@ == problem && final(registry).entries@
                    == old(registry).entries@,
                None => {
                    let renewed = instances::renewed(held->0, request.ttl_seconds, now as int);
                    &&& r is Ok
                    &&& renewed.describes(now, r->Ok_0)
                    &&& instances::lookup(final(registry).entries@, id@) == Some(renewed)
                },
            }
        }),
        keeps_the_others(*old(registry), *final(registry), id@),
{
    let ttl = match ttl_duration(request.ttl_seconds) {
        Ok(ttl) => ttl,
        Err(problem) => {
            return Err(problem);
        },
    };
    match registry.get(id) {
        None => {
            return Err(Problem::unknown_instance(id));
        },
        Some(entry) => {
            if entry.state() != GuestState::Running {
                return Err(Problem::instance_exited(id));
            }
        },
    }
    registry.renew(id, ttl, now);
    match registry.get(id) {
        None => Err(Problem::unknown_instance(id)),
        Some(entry) => Ok(entry.describe(now)),
    }
}

/// What the filesystem says of the socket to listen on.
#[derive(Debug)]
pub struct SocketFacts {
    pub exists: bool,
    /// Whether a server answers on it.
    pub answers: bool,
    /// The directory it stands in, and whether that exists.
    pub parent: Option<(UnixPath, bool)>,
}

/// How to make way for a socket.
#[derive(Debug)]
pub enum Claim {
    /// It is served already: the error says so.
    Served(String),
    /// Remove the stale socket.
    RemoveStale,
    /// Create its directory, open to the user alone.
    CreateParent(UnixPath),
    /// Nothing has to be done.
    Ready,
}

/// Makes way for a socket: not where a server answers on it; a stale one is
/// removed, and a missing directory created.
pub fn claim_socket(socket: &UnixPath, facts: &SocketFacts) -> (r: Claim)
    ensures
        if facts.exists {
            if facts.answers {
                r matches Claim::Served(error) && error@ == path::lossy(socket@)
                    + " is already being served"@
            } else {
                r is RemoveStale
            }
        } else {
            match facts.parent {
                Some((parent, exists)) => if parent@.len() > 0 && !exists {
                    r matches Claim::CreateParent(dir) && dir@ == parent@
                } else {
                    r is Ready
                },
                None => r is Ready,
            }
        },
{
    if facts.exists {
        if facts.answers {
            let mut error = socket.display();
            error.append(" is already being served");
            return Claim::Served(error);
        }
        return Claim::RemoveStale;
    }
    if let Some((parent, exists)) = &facts.parent {
        if parent.bytes.len() > 0 && !*exists {
            return Claim::CreateParent(parent.clone());
        }
    }
    Claim::Ready
}

/// The line a server prints when it is ready, for scripts.
pub fn ready_line(socket: &UnixPath) -> (r: String)
    ensures
        r@ == "listening on "@ + path::lossy(socket@),
{
    let mut line = "listening on ".to_owned();
    line.append(socket.display().as_str());
    line
}

/// The line that tells a person the same.
pub fn serving_line(socket: &UnixPath) -> (r: String)
    ensures
        r@ == "==> serving the API on "@ + path::lossy(socket@)
            + " (try `curl --unix-socket "@ + path::lossy(socket@)
            + " localhost/v1/services`). Ctrl-C to stop."@,
{
    let shown = socket.display();
    let mut line = "==> serving the API on ".to_owned();
    line.append(shown.as_str());
    line.append(" (try `curl --unix-socket ");
    line.append(shown.as_str());
    line.append(" localhost/v1/services`). Ctrl-C to stop.");
    line
}

/// A created instance answers as running at its endpoint, however many others
/// are created, renewed and deleted meanwhile.
pub proof fn law_a_created_instance_answers(
    created: Registry,
    later: Registry,
    id: Seq<char>,
    other: Seq<char>,
    plan: Plan,
    endpoint: Address,
    start: u128,
    now: u128,
    answer: Result<Instance, Problem>,
)
    requires
        is_created(created, id, plan, endpoint, start),
        keeps_the_others(created, later, other),
        id != other,
        answers(later, id, now, answer),
    ensures
        answer is Ok,
        (answer->Ok_0).id@ == id,
        (answer->Ok_0).state == api::InstanceState::Running,
        (answer->Ok_0).endpoint.host == endpoint.ip,
        (answer->Ok_0).endpoint.port == endpoint.port,
        start <= now ==> (answer->Ok_0).expires_in_seconds <= plan.ttl_seconds,
{
    let held = instances::lookup(created.entries@, id)->0;
    assert(instances::lookup(later.entries@, id) == Some(held));
    if start <= now {
        let nanos = instances::NANOS as int;
        let left = held.lease.expires_at - now;
        assert(left <= plan.ttl_seconds * nanos);
        if !held.expired(now) {
            assert(left / nanos <= plan.ttl_seconds) by (nonlinear_arith)
                requires
                    left <= plan.ttl_seconds * nanos,
                    nanos > 0,
            ;
        }
    }
}

/// A deleted instance is unknown, to one who asks after it and to one who
/// renews it.
pub proof fn law_a_deleted_instance_is_unknown(
    deleted: Registry,
    id: Seq<char>,
    now: u128,
    answer: Result<Instance, Problem>,
)
    requires
        instances::lookup(deleted.entries@, id) is None,
        answers(deleted, id, now, answer),
    ensures
        answer is Err,
        (answer->Err_0)@ == api::unknown_instance_problem(id),
        renewal_problem(instances::lookup(deleted.entries@, id), id, None) == Some(
            api::unknown_instance_problem(id),
        ),
{
}

/// A recipe reaches the initializer as it was sent: what was encoded for the
/// request is what the plan made of the request carries.
pub proof fn law_a_recipe_arrives_as_it_was_sent(
    packages: Seq<DiscoveredPackage>,
    request: CreateInstance,
    recipe: Seq<u8>,
    roots: Seq<UnixPath>,
    same_user: bool,
    plan: Plan,
)
    requires
        request.recipe matches Some(sent) && api::base64_decoded(sent@) == Ok::<Seq<u8>, Seq<char>>(
            recipe,
        ),
        request.recipe_files@.len() == 0,
        is_plan(packages, request, decoded_recipe(request.recipe), roots, same_user, plan),
    ensures
        plan.recipe@ == Source::Inline(recipe),
{
}

/// A request whose TTL is out of range is refused with that, whatever else it
/// asks for.
pub proof fn law_the_ttl_is_looked_at_first(
    packages: Seq<DiscoveredPackage>,
    request: CreateInstance,
    recipe: Option<Result<Seq<u8>, ProblemView>>,
    roots: Seq<UnixPath>,
    same_user: bool,
)
    requires
        request.ttl_seconds is Some,
        request.ttl_seconds->0 == 0 || request.ttl_seconds->0 > MAX_TTL_SECONDS,
    ensures
        plan_problem(packages, request, recipe, roots, same_user) == Some(
            api::invalid_ttl_problem(request.ttl_seconds->0 as nat),
        ),
{
}

/// Without a root, or for another user, no file is ever read.
pub proof fn law_files_are_opted_into(
    recipe: Option<Result<Seq<u8>, ProblemView>>,
    files: Seq<Seq<char>>,
    roots: Seq<UnixPath>,
    same_user: bool,
)
    requires
        roots.len() == 0 || !same_user,
    ensures
        sourced(recipe, files, roots, same_user) matches Ok(source) ==> source !is Files,
{
}

/// A plan is for what was asked: the service and version the request names,
/// the recipe it carries or the files it names, all of them and in its order,
/// and the TTL it asks for, or five minutes.
pub proof fn law_a_plan_is_for_what_was_asked(
    services: ServiceIndex,
    request: CreateInstance,
    recipe: Option<Result<Seq<u8>, ProblemView>>,
    roots: Seq<UnixPath>,
    same_user: bool,
    plan: Plan,
)
    requires
        plan_problem(services.packages@, request, recipe, roots, same_user) is None,
        is_plan(services.packages@, request, recipe, roots, same_user, plan),
    ensures
        plan.manifest.service.name@ == request.service@,
        request.version matches Some(version) ==> plan.manifest.service.version@ == version@,
        exists|i: int|
            0 <= i < services.packages@.len() && *plan.manifest == (
            #[trigger] services.packages@[i]).manifest,
        recipe is None && request.recipe_files@.len() == 0 ==> plan.recipe@ == Source::Absent,
        recipe matches Some(Ok(bytes)) ==> plan.recipe@ == Source::Inline(bytes),
        recipe is None && request.recipe_files@.len() > 0 ==> {
            &&& plan.recipe@ is Files
            &&& (plan.recipe@->Files_0).len() == request.recipe_files@.len()
            &&& forall|i: int|
                0 <= i < request.recipe_files@.len() ==> #[trigger] (plan.recipe@->Files_0)[i]
                    == request.recipe_files@[i]@
        },
        plan.ttl_seconds == match request.ttl_seconds {
            Some(seconds) => seconds,
            None => 300,
        },
        1 <= plan.ttl_seconds <= 86400,
        plan.recipe@ != Source::Absent ==> plan.manifest.initializer is Some,
{
    let version = text::optional_view(request.version);
    let found = discovery::wanted(services.packages@, request.service@, version);
    assert(discovery::selected(services.packages@, request.service@, version) == Some(found[0]));
    discovery::lemma_selected(services.packages@, request.service@, version);
    discovery::law_the_only_match_is_selected(
        services.packages@,
        request.service@,
        version,
        found[0],
    );
    assert(*plan.manifest == services.packages@[found[0]].manifest);
}

/// When a request for an instance is refused: exactly where its TTL is out of
/// range, no one package matches, its recipe does not decode, it names files
/// beside a recipe, files where they are not accepted, or a recipe where
/// nothing takes it.
pub proof fn law_when_a_request_is_refused(
    packages: Seq<DiscoveredPackage>,
    request: CreateInstance,
    recipe: Option<Result<Seq<u8>, ProblemView>>,
    roots: Seq<UnixPath>,
    same_user: bool,
    i: int,
)
    requires
        discovery::selected(packages, request.service@, text::optional_view(request.version))
            == Some(i),
    ensures
        ({
            let problem = plan_problem(packages, request, recipe, roots, same_user);
            let ttl = request.ttl_seconds is None || 1 <= request.ttl_seconds->0 <= 86400;
            let files = request.recipe_files@.len() > 0;
            let given = recipe is Some || files;
            let decodes = recipe is None || recipe->0 is Ok;
            &&& problem is None <==> {
                &&& ttl
                &&& decodes
                &&& !(recipe is Some && files)
                &&& files ==> roots.len() > 0 && same_user
                &&& given ==> packages[i].manifest.initializer is Some
            }
            &&& !ttl ==> problem == Some(
                api::invalid_ttl_problem(request.ttl_seconds->0 as nat),
            )
            &&& ttl ==> (recipe matches Some(Err(invalid)) ==> problem == Some(invalid))
            &&& ttl && decodes && recipe is Some && files ==> problem is Some && (
            problem->0).status == 400
            &&& ttl && recipe is None && files && !(roots.len() > 0 && same_user)
                ==> problem is Some && (problem->0).status == 403
            &&& ttl && decodes && recipe is Some && !files
                && packages[i].manifest.initializer is None ==> problem == Some(
                api::no_initializer_problem(request.service@),
            )
        }),
        discovery::wanted(packages, request.service@, text::optional_view(request.version)).len()
            == 1,
{
}

/// A request for a service that no package is, or that several are, is refused
/// with that: with 404, or with 409 and the versions there are.
pub proof fn law_a_service_that_is_not_one_package_is_refused(
    packages: Seq<DiscoveredPackage>,
    name: Seq<char>,
    version: Option<Seq<char>>,
    i: int,
)
    requires
        0 <= i < packages.len(),
    ensures
        service_problem(packages, name, version) is None <==> discovery::selected(
            packages,
            name,
            version,
        ) is Some,
        service_problem(packages, name, version) == Some(
            api::unknown_service_problem(name, version),
        ) ==> !(packages[i].manifest.service.name@ == name && (version is None || version->0
            == packages[i].manifest.service.version@)),
        service_problem(packages, name, version) matches Some(problem) ==> problem.status == 404
            || problem.status == 409,
        discovery::wanted(packages, name, version).len() > 1 ==> service_problem(
            packages,
            name,
            version,
        ) == Some(
            api::ambiguous_version_problem(
                name,
                discovery::versions_at(packages, discovery::wanted(packages, name, version)),
            ),
        ),
{
    discovery::law_the_only_match_is_selected(packages, name, version, i);
}

/// A renewal is refused exactly where its TTL is out of range, the instance is
/// not held, or its guest has exited, and says which.
pub proof fn law_when_a_renewal_is_refused(
    held: Option<Entry>,
    id: Seq<char>,
    ttl_seconds: Option<u64>,
)
    ensures
        ({
            let problem = renewal_problem(held, id, ttl_seconds);
            let ttl = ttl_seconds is None || 1 <= ttl_seconds->0 <= 86400;
            &&& problem is None <==> ttl && held is Some && (held->0).state == GuestState::Running
            &&& !ttl ==> problem == Some(api::invalid_ttl_problem(ttl_seconds->0 as nat))
            &&& ttl && held is None ==> problem == Some(api::unknown_instance_problem(id))
            &&& ttl && held is Some && (held->0).state != GuestState::Running ==> problem == Some(
                api::instance_exited_problem(id),
            )
        }),
{
}

/// A created instance is held for the plan it was made for, with a lease of
/// the whole TTL from the moment it was created.
pub proof fn law_a_created_instance_is_what_was_planned(
    registry: Registry,
    id: Seq<char>,
    plan: Plan,
    endpoint: Address,
    start: u128,
    now: u128,
    answer: Result<Instance, Problem>,
)
    requires
        is_created(registry, id, plan, endpoint, start),
        answers(registry, id, start, answer),
    ensures
        answer is Ok,
        (answer->Ok_0).service == plan.manifest.service.name,
        (answer->Ok_0).version == plan.manifest.service.version,
        (answer->Ok_0).expires_in_seconds == plan.ttl_seconds,
        (instances::lookup(registry.entries@, id)->0).expired(now) <==> start + plan.ttl_seconds
            * 1_000_000_000 <= now,
{
    let ttl = plan.ttl_seconds as int;
    assert((ttl * 1_000_000_000) / 1_000_000_000 == ttl) by (nonlinear_arith);
    let held = instances::lookup(registry.entries@, id)->0;
    assert(held.lease.expires_at - start == ttl * 1_000_000_000);
}

/// Where a recipe comes from is told apart: what is carried is carried whole,
/// and the files are those named, in their order.
pub proof fn law_a_source_is_what_it_holds(source: RecipeSource)
    ensures
        source matches RecipeSource::Inline(recipe) ==> source@ == Source::Inline(recipe@),
        source is Absent <==> source@ == Source::Absent,
        source matches RecipeSource::Files(files) ==> {
            &&& source@ is Files
            &&& (source@->Files_0).len() == files@.len()
            &&& forall|i: int|
                0 <= i < files@.len() ==> #[trigger] (source@->Files_0)[i] == files@[i]@
        },
{
}

/// A request may hold the largest recipe that a host takes, encoded as it is
/// sent.
pub proof fn law_a_body_holds_the_largest_recipe()
    ensures
        MAX_BODY >= (crate::host::protocol::MAX_PAYLOAD_LEN + 2) / 3 * 4,
        MAX_BODY == 536870912,
{
}

/// Whoever asks about an instance is told about that instance, and that it is
/// unknown exactly where it is not there; a change to one instance leaves every
/// other as it was.
pub proof fn law_an_answer_is_about_the_instance(
    registry: Registry,
    after: Registry,
    id: Seq<char>,
    other: Seq<char>,
    now: u128,
    answer: Result<Instance, Problem>,
)
    requires
        answers(registry, id, now, answer),
        keeps_the_others(registry, after, id),
        other != id,
    ensures
        answer is Ok <==> instances::lookup(registry.entries@, id) is Some,
        answer matches Err(problem) ==> problem@ == api::unknown_instance_problem(id),
        answer matches Ok(instance) ==> {
            let entry = instances::lookup(registry.entries@, id)->0;
            &&& instance.id@ == entry.id@
            &&& instance.service@ == entry.service@
            &&& instance.version@ == entry.version@
            &&& instance.endpoint.port == entry.endpoint.port
            &&& instance.expires_in_seconds == entry.seconds_left(now)
        },
        instances::lookup(after.entries@, other) == instances::lookup(registry.entries@, other),
{
}

/// A request that names files is refused for what is missing: that no root was
/// given, or that another user asks.
pub proof fn law_files_are_refused_for_what_is_missing(roots: Seq<UnixPath>, same_user: bool)
    ensures
        accepts_files(roots, same_user) <==> roots.len() > 0 && same_user,
        roots.len() == 0 ==> files_refusal(roots)
            == "the server was started without --recipe-root"@,
        roots.len() > 0 ==> files_refusal(roots)
            == "the connection is not by the user the server runs as"@,
{
}

/// A recipe that is sent with a request is decoded as it was encoded, and one
/// that cannot be decoded is refused as what it is.
pub proof fn law_a_sent_recipe_is_decoded(sent: String, bytes: Vec<u8>, problem: Problem)
    ensures
        decoded_view(Some(Ok(bytes))) == Some(Ok::<Seq<u8>, ProblemView>(bytes@)),
        decoded_view(Some(Err(problem))) == Some(Err::<Seq<u8>, ProblemView>(problem@)),
        decoded_view(None) is None,
        decoded_recipe(None) is None,
        api::base64_decoded(sent@) matches Ok(content) ==> decoded_recipe(Some(sent)) == Some(
            Ok::<Seq<u8>, ProblemView>(content),
        ),
        api::base64_decoded(sent@) matches Err(error) ==> decoded_recipe(Some(sent)) == Some(
            Err::<Seq<u8>, ProblemView>(api::invalid_recipe_problem(error)),
        ),
{
}

} // verus!
