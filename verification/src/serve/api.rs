//! The bodies of the manager's HTTP API, shared by the server and the
//! client. Errors are problem details with stable
//! `urn:servicecache:<slug>` types.

use crate::text;
use base64::Engine as _;
use vstd::prelude::*;

verus! {

/// A request for a service instance.
#[derive(Debug)]
pub struct CreateInstance {
    /// The service's name.
    pub service: String,
    /// The exact version; needed when several are installed.
    pub version: Option<String>,
    /// The initializer's standard input, base64-encoded. Without it the
    /// initializer does not run.
    pub recipe: Option<String>,
    /// Files to take the recipe from instead, read by the server.
    pub recipe_files: Vec<String>,
    /// Seconds the instance lives without a renewal; 1 to 86400, default 300.
    pub ttl_seconds: Option<u64>,
}

/// A renewal; without `ttl_seconds` the instance's current TTL starts over.
#[derive(Clone, Copy, Debug)]
pub struct RenewInstance {
    /// The new TTL in seconds; 1 to 86400.
    pub ttl_seconds: Option<u64>,
}

/// Where an instance serves.
#[derive(Debug, PartialEq, Eq)]
pub struct Endpoint {
    /// The IP address, as text.
    pub host: String,
    /// The TCP port.
    pub port: u16,
}

impl Clone for Endpoint {
    fn clone(&self) -> (r: Self)
        ensures
            r == *self,
    {
        Endpoint { host: self.host.clone(), port: self.port }
    }
}

/// An instance's state.
#[derive(Clone, Copy, Debug, PartialEq, Eq, Structural)]
pub enum InstanceState {
    Running,
    Exited,
}

/// One instance, as created, listed and polled.
#[derive(Debug)]
pub struct Instance {
    /// The instance's identifier.
    pub id: String,
    /// The service's name.
    pub service: String,
    /// The service's version.
    pub version: String,
    /// Where the instance serves.
    pub endpoint: Endpoint,
    /// Whether the guest is running or has exited.
    pub state: InstanceState,
    /// The guest's exit status, once exited; absent while it runs, or when
    /// the guest went away without reporting one.
    pub exit_status: Option<i32>,
    /// Seconds until the instance is destroyed unless renewed.
    pub expires_in_seconds: u64,
}

/// An installed service.
#[derive(Debug)]
pub struct ServiceEntry {
    /// The service's name.
    pub name: String,
    /// The service's version.
    pub version: String,
}

/// An error reply.
#[derive(Debug, PartialEq, Eq)]
pub struct Problem {
    /// A stable identifier for the kind of problem,
    /// `urn:servicecache:<slug>`.
    pub kind: String,
    /// A short human-readable summary of the kind of problem.
    pub title: String,
    /// The HTTP status, repeated in the body.
    pub status: u16,
    /// What went wrong in this occurrence.
    pub detail: Option<String>,
}

/// What a problem says.
pub struct ProblemView {
    pub kind: Seq<char>,
    pub title: Seq<char>,
    pub status: u16,
    pub detail: Option<Seq<char>>,
}

impl View for Problem {
    type V = ProblemView;

    open spec fn view(&self) -> ProblemView {
        ProblemView {
            kind: self.kind@,
            title: self.title@,
            status: self.status,
            detail: match self.detail {
                Some(detail) => Some(detail@),
                None => None,
            },
        }
    }
}

/// What every kind of problem begins with.
pub const KIND_PREFIX: &'static str = "urn:servicecache:";

/// The problem `urn:servicecache:<slug>`.
pub open spec fn problem(
    status: u16,
    slug: Seq<char>,
    title: Seq<char>,
    detail: Option<Seq<char>>,
) -> ProblemView {
    ProblemView { kind: KIND_PREFIX@ + slug, title, status, detail }
}

/// What names a service: its name, and its version where one is named.
pub open spec fn service_spec(service: Seq<char>, version: Option<Seq<char>>) -> Seq<char> {
    match version {
        Some(version) => service + "@"@ + version,
        None => service,
    }
}

/// `urn:servicecache:invalid-body`.
pub open spec fn invalid_body_problem(error: Seq<char>) -> ProblemView {
    problem(400, "invalid-body"@, "The request body is not valid"@, Some(error))
}

/// `urn:servicecache:invalid-recipe`.
pub open spec fn invalid_recipe_problem(error: Seq<char>) -> ProblemView {
    problem(400, "invalid-recipe"@, "The recipe is not valid base64"@, Some(error))
}

/// `urn:servicecache:invalid-ttl`.
pub open spec fn invalid_ttl_problem(seconds: nat) -> ProblemView {
    problem(
        400,
        "invalid-ttl"@,
        "The TTL is out of range"@,
        Some(text::decimal(seconds) + " seconds; the range is 1 to 86400"@),
    )
}

/// `urn:servicecache:unknown-service`.
pub open spec fn unknown_service_problem(service: Seq<char>, version: Option<Seq<char>>) -> ProblemView {
    problem(
        404,
        "unknown-service"@,
        "No installed service matches"@,
        Some("no installed service matches "@ + service_spec(service, version)),
    )
}

/// `urn:servicecache:ambiguous-version`.
pub open spec fn ambiguous_version_problem(
    service: Seq<char>,
    versions: Seq<Seq<char>>,
) -> ProblemView {
    problem(
        409,
        "ambiguous-version"@,
        "The service is installed in several versions"@,
        Some(
            service + " is installed in several versions ("@ + text::joined(versions, ", "@)
                + "); name one"@,
        ),
    )
}

/// `urn:servicecache:no-initializer`.
pub open spec fn no_initializer_problem(service: Seq<char>) -> ProblemView {
    problem(
        400,
        "no-initializer"@,
        "The service takes no recipe"@,
        Some(service + " has no initializer to give the recipe to"@),
    )
}

/// `urn:servicecache:unknown-instance`.
pub open spec fn unknown_instance_problem(id: Seq<char>) -> ProblemView {
    problem(
        404,
        "unknown-instance"@,
        "No such instance"@,
        Some("no instance "@ + id + "; it may have expired"@),
    )
}

/// `urn:servicecache:instance-exited`.
pub open spec fn instance_exited_problem(id: Seq<char>) -> ProblemView {
    problem(
        409,
        "instance-exited"@,
        "The instance's guest has exited"@,
        Some("instance "@ + id + " cannot be renewed"@),
    )
}

/// `urn:servicecache:prepare-failed`.
pub open spec fn prepare_failed_problem(status: i32) -> ProblemView {
    problem(
        500,
        "prepare-failed"@,
        "The prepare step failed"@,
        Some("the prepare step exited with status "@ + text::signed_decimal(status as int)),
    )
}

/// `urn:servicecache:initializer-failed`.
pub open spec fn initializer_failed_problem(status: i32) -> ProblemView {
    problem(
        500,
        "initializer-failed"@,
        "The initializer failed"@,
        Some("the initializer exited with status "@ + text::signed_decimal(status as int)),
    )
}

/// `urn:servicecache:bring-up-failed`.
pub open spec fn bring_up_failed_problem(error: Seq<char>) -> ProblemView {
    problem(500, "bring-up-failed"@, "The instance did not come up"@, Some(error))
}

/// `urn:servicecache:template-failed`.
pub open spec fn template_failed_problem(error: Seq<char>) -> ProblemView {
    problem(500, "template-failed"@, "The template could not be forked"@, Some(error))
}

/// `urn:servicecache:recipe-file-invalid`.
pub open spec fn recipe_file_invalid_problem(file: Seq<char>, error: Seq<char>) -> ProblemView {
    problem(
        400,
        "recipe-file-invalid"@,
        "A recipe file cannot be read"@,
        Some(file + ": "@ + error),
    )
}

/// `urn:servicecache:recipe-files-refused`.
pub open spec fn recipe_files_refused_problem(detail: Seq<char>) -> ProblemView {
    problem(403, "recipe-files-refused"@, "Recipe files are not accepted"@, Some(detail))
}

/// `urn:servicecache:recipe-too-large`.
pub open spec fn recipe_too_large_problem(max_len: nat) -> ProblemView {
    problem(
        413,
        "recipe-too-large"@,
        "The recipe is too large"@,
        Some("the recipe is larger than "@ + text::decimal(max_len) + " bytes"@),
    )
}

/// `urn:servicecache:internal`.
pub open spec fn internal_problem(detail: Seq<char>) -> ProblemView {
    problem(500, "internal"@, "Internal error"@, Some(detail))
}

/// `urn:servicecache:unknown-route`.
pub open spec fn unknown_route_problem() -> ProblemView {
    problem(404, "unknown-route"@, "No such route"@, None)
}

/// `urn:servicecache:method-not-allowed`.
pub open spec fn method_not_allowed_problem() -> ProblemView {
    problem(405, "method-not-allowed"@, "The route does not answer this method"@, None)
}

impl Problem {
    /// The media type problems are sent as.
    pub const CONTENT_TYPE: &'static str = "application/problem+json";

    /// The problem `urn:servicecache:<slug>`, without a detail.
    pub fn new(status: u16, slug: &str, title: &str) -> (r: Self)
        ensures
            r@ == problem(status, slug@, title@, None),
    {
        let mut kind = KIND_PREFIX.to_owned();
        kind.append(slug);
        Problem { kind, title: title.to_owned(), status, detail: None }
    }

    /// The same problem with a detail.
    pub fn with_detail(self, detail: &str) -> (r: Self)
        ensures
            r@ == (ProblemView { detail: Some(detail@), ..self@ }),
    {
        Problem {
            kind: self.kind,
            title: self.title,
            status: self.status,
            detail: Some(detail.to_owned()),
        }
    }

    /// Whether this is the problem `urn:servicecache:<slug>`.
    pub fn is(&self, slug: &str) -> (r: bool)
        ensures
            r == (self.kind@ == KIND_PREFIX@ + slug@),
    {
        let mut kind = KIND_PREFIX.to_owned();
        kind.append(slug);
        self.kind == kind
    }

    pub fn invalid_body(error: &str) -> (r: Self)
        ensures
            r@ == invalid_body_problem(error@),
    {
        Self::new(400, "invalid-body", "The request body is not valid").with_detail(error)
    }

    pub fn invalid_recipe(error: &str) -> (r: Self)
        ensures
            r@ == invalid_recipe_problem(error@),
    {
        Self::new(400, "invalid-recipe", "The recipe is not valid base64").with_detail(error)
    }

    pub fn invalid_ttl(seconds: u64) -> (r: Self)
        ensures
            r@ == invalid_ttl_problem(seconds as nat),
    {
        let mut detail = text::decimal_text(seconds);
        detail.append(" seconds; the range is 1 to 86400");
        Self::new(400, "invalid-ttl", "The TTL is out of range").with_detail(detail.as_str())
    }

    pub fn unknown_service(service: &str, version: Option<&str>) -> (r: Self)
        ensures
            r@ == unknown_service_problem(
                service@,
                match version {
                    Some(version) => Some(version@),
                    None => None,
                },
            ),
    {
        let mut spec = service.to_owned();
        if let Some(version) = version {
            spec.append("@");
            spec.append(version);
        }
        let mut detail = "no installed service matches ".to_owned();
        detail.append(spec.as_str());
        Self::new(404, "unknown-service", "No installed service matches").with_detail(
            detail.as_str(),
        )
    }

    pub fn ambiguous_version(service: &str, versions: &Vec<String>) -> (r: Self)
        ensures
            r@ == ambiguous_version_problem(service@, text::texts(versions@)),
    {
        let mut detail = service.to_owned();
        detail.append(" is installed in several versions (");
        detail.append(text::join(versions, ", ").as_str());
        detail.append("); name one");
        Self::new(409, "ambiguous-version", "The service is installed in several versions")
            .with_detail(detail.as_str())
    }

    pub fn no_initializer(service: &str) -> (r: Self)
        ensures
            r@ == no_initializer_problem(service@),
    {
        let mut detail = service.to_owned();
        detail.append(" has no initializer to give the recipe to");
        Self::new(400, "no-initializer", "The service takes no recipe").with_detail(
            detail.as_str(),
        )
    }

    pub fn unknown_instance(id: &str) -> (r: Self)
        ensures
            r@ == unknown_instance_problem(id@),
    {
        let mut detail = "no instance ".to_owned();
        detail.append(id);
        detail.append("; it may have expired");
        Self::new(404, "unknown-instance", "No such instance").with_detail(detail.as_str())
    }

    pub fn instance_exited(id: &str) -> (r: Self)
        ensures
            r@ == instance_exited_problem(id@),
    {
        let mut detail = "instance ".to_owned();
        detail.append(id);
        detail.append(" cannot be renewed");
        Self::new(409, "instance-exited", "The instance's guest has exited").with_detail(
            detail.as_str(),
        )
    }

    pub fn prepare_failed(status: i32) -> (r: Self)
        ensures
            r@ == prepare_failed_problem(status),
    {
        let mut detail = "the prepare step exited with status ".to_owned();
        text::push_signed(&mut detail, status);
        Self::new(500, "prepare-failed", "The prepare step failed").with_detail(detail.as_str())
    }

    pub fn initializer_failed(status: i32) -> (r: Self)
        ensures
            r@ == initializer_failed_problem(status),
    {
        let mut detail = "the initializer exited with status ".to_owned();
        text::push_signed(&mut detail, status);
        Self::new(500, "initializer-failed", "The initializer failed").with_detail(
            detail.as_str(),
        )
    }

    pub fn bring_up_failed(error: &str) -> (r: Self)
        ensures
            r@ == bring_up_failed_problem(error@),
    {
        Self::new(500, "bring-up-failed", "The instance did not come up").with_detail(error)
    }

    pub fn template_failed(error: &str) -> (r: Self)
        ensures
            r@ == template_failed_problem(error@),
    {
        Self::new(500, "template-failed", "The template could not be forked").with_detail(error)
    }

    pub fn recipe_file_invalid(file: &str, error: &str) -> (r: Self)
        ensures
            r@ == recipe_file_invalid_problem(file@, error@),
    {
        let mut detail = file.to_owned();
        detail.append(": ");
        detail.append(error);
        Self::new(400, "recipe-file-invalid", "A recipe file cannot be read").with_detail(
            detail.as_str(),
        )
    }

    pub fn recipe_files_refused(detail: &str) -> (r: Self)
        ensures
            r@ == recipe_files_refused_problem(detail@),
    {
        Self::new(403, "recipe-files-refused", "Recipe files are not accepted").with_detail(detail)
    }

    pub fn recipe_too_large(max_len: usize) -> (r: Self)
        ensures
            r@ == recipe_too_large_problem(max_len as nat),
    {
        let mut detail = "the recipe is larger than ".to_owned();
        text::push_decimal(&mut detail, max_len as u64);
        detail.append(" bytes");
        Self::new(413, "recipe-too-large", "The recipe is too large").with_detail(detail.as_str())
    }

    pub fn internal(detail: &str) -> (r: Self)
        ensures
            r@ == internal_problem(detail@),
    {
        Self::new(500, "internal", "Internal error").with_detail(detail)
    }

    pub fn unknown_route() -> (r: Self)
        ensures
            r@ == unknown_route_problem(),
    {
        Self::new(404, "unknown-route", "No such route")
    }

    pub fn method_not_allowed() -> (r: Self)
        ensures
            r@ == method_not_allowed_problem(),
    {
        Self::new(405, "method-not-allowed", "The route does not answer this method")
    }
}

/// A problem is the one its slug names, whatever its detail, and no other.
pub proof fn law_a_problem_is_named_by_its_slug(
    status: u16,
    slug: Seq<char>,
    title: Seq<char>,
    detail: Option<Seq<char>>,
    other: Seq<char>,
)
    ensures
        (problem(status, slug, title, detail).kind == KIND_PREFIX@ + other) == (slug == other),
{
    let kind = KIND_PREFIX@ + slug;
    if kind == KIND_PREFIX@ + other {
        assert(kind.skip(KIND_PREFIX@.len() as int) =~= slug);
        assert((KIND_PREFIX@ + other).skip(KIND_PREFIX@.len() as int) =~= other);
    }
}

/// The symbol of the standard base64 alphabet for six bits.
pub open spec fn base64_symbol(bits: int) -> char {
    if bits < 26 {
        ('A' as int + bits) as char
    } else if bits < 52 {
        ('a' as int + bits - 26) as char
    } else if bits < 62 {
        ('0' as int + bits - 52) as char
    } else if bits == 62 {
        '+'
    } else {
        '/'
    }
}

/// What the standard base64 alphabet, with padding, makes of bytes: four
/// symbols for every three of them, high bits first, and `=` for a symbol that
/// has no bits.
pub open spec fn base64_encoded(bytes: Seq<u8>) -> Seq<char>
    decreases bytes.len(),
{
    if bytes.len() == 0 {
        Seq::empty()
    } else if bytes.len() == 1 {
        seq![base64_symbol(bytes[0] as int / 4), base64_symbol(bytes[0] % 4 * 16), '=', '=']
    } else if bytes.len() == 2 {
        seq![
            base64_symbol(bytes[0] as int / 4),
            base64_symbol(bytes[0] % 4 * 16 + bytes[1] / 16),
            base64_symbol(bytes[1] % 16 * 4),
            '=',
        ]
    } else {
        seq![
            base64_symbol(bytes[0] as int / 4),
            base64_symbol(bytes[0] % 4 * 16 + bytes[1] / 16),
            base64_symbol(bytes[1] % 16 * 4 + bytes[2] / 64),
            base64_symbol(bytes[2] as int % 64),
        ] + base64_encoded(bytes.skip(3))
    }
}

/// Whether a text is the encoding of some bytes.
pub open spec fn is_base64(s: Seq<char>) -> bool {
    exists|bytes: Seq<u8>| s == #[trigger] base64_encoded(bytes)
}

/// The text of the error for a text that is not the encoding of any bytes.
pub uninterp spec fn base64_error(s: Seq<char>) -> Seq<char>;

/// What decoding a text gives back: the bytes it is the encoding of, or the
/// text of the error where there are none.
pub open spec fn base64_decoded(s: Seq<char>) -> Result<Seq<u8>, Seq<char>> {
    if is_base64(s) {
        Ok(choose|bytes: Seq<u8>| s == #[trigger] base64_encoded(bytes))
    } else {
        Err(base64_error(s))
    }
}

/// Different bits have different symbols, and none has the padding.
proof fn lemma_base64_symbol(a: int, b: int)
    requires
        0 <= a < 64,
        0 <= b < 64,
    ensures
        base64_symbol(a) == base64_symbol(b) ==> a == b,
        base64_symbol(a) != '=',
        base64_symbol(b) != '=',
{
}

/// The six bits of the symbol at `at` of the first four; zero where there is
/// no byte to take them from.
spec fn base64_bits(bytes: Seq<u8>, at: int) -> int {
    let second = if bytes.len() > 1 {
        bytes[1] as int
    } else {
        0
    };
    let third = if bytes.len() > 2 {
        bytes[2] as int
    } else {
        0
    };
    if at == 0 {
        bytes[0] as int / 4
    } else if at == 1 {
        bytes[0] % 4 * 16 + second / 16
    } else if at == 2 {
        second % 16 * 4 + third / 64
    } else {
        third % 64
    }
}

/// The first four symbols of an encoding are those of the bits, those without
/// bits the padding.
proof fn lemma_base64_head(bytes: Seq<u8>)
    requires
        bytes.len() > 0,
    ensures
        forall|at: int| 0 <= at < 4 ==> 0 <= #[trigger] base64_bits(bytes, at) < 64,
        base64_encoded(bytes).len() >= 4,
        base64_encoded(bytes)[0] == base64_symbol(base64_bits(bytes, 0)),
        base64_encoded(bytes)[1] == base64_symbol(base64_bits(bytes, 1)),
        base64_encoded(bytes)[2] == if bytes.len() > 1 {
            base64_symbol(base64_bits(bytes, 2))
        } else {
            '='
        },
        base64_encoded(bytes)[3] == if bytes.len() > 2 {
            base64_symbol(base64_bits(bytes, 3))
        } else {
            '='
        },
        bytes.len() > 2 ==> base64_encoded(bytes).skip(4) == base64_encoded(bytes.skip(3)),
        bytes.len() <= 2 ==> base64_encoded(bytes).len() == 4,
{
    if bytes.len() > 2 {
        assert(base64_encoded(bytes).skip(4) =~= base64_encoded(bytes.skip(3)));
    }
}

/// No two runs of bytes have the same encoding.
proof fn lemma_base64_is_injective(a: Seq<u8>, b: Seq<u8>)
    requires
        base64_encoded(a) == base64_encoded(b),
    ensures
        a == b,
    decreases a.len(),
{
    if a.len() > 0 {
        lemma_base64_head(a);
    }
    if b.len() > 0 {
        lemma_base64_head(b);
    }
    if a.len() > 0 && b.len() > 0 {
        lemma_base64_symbol(base64_bits(a, 0), base64_bits(b, 0));
        lemma_base64_symbol(base64_bits(a, 1), base64_bits(b, 1));
        lemma_base64_symbol(base64_bits(a, 2), base64_bits(b, 2));
        lemma_base64_symbol(base64_bits(a, 3), base64_bits(b, 3));
        assert(a.len() > 1 <==> b.len() > 1);
        assert(a.len() > 2 <==> b.len() > 2);
        assert(a[0] == b[0]);
        if a.len() > 1 {
            assert(a[1] == b[1]);
        }
        if a.len() > 2 {
            assert(a[2] == b[2]);
            lemma_base64_is_injective(a.skip(3), b.skip(3));
            assert(a =~= a.take(3) + a.skip(3));
            assert(b =~= b.take(3) + b.skip(3));
            assert(a.take(3) =~= b.take(3));
        } else {
            assert(a =~= b);
        }
    } else {
        assert(a =~= b);
    }
}

/// Decoding what bytes are encoded as gives the bytes back.
pub proof fn law_base64_reads_back(bytes: Seq<u8>)
    ensures
        base64_decoded(base64_encoded(bytes)) == Ok::<Seq<u8>, Seq<char>>(bytes),
{
    let s = base64_encoded(bytes);
    let decoded = choose|decoded: Seq<u8>| s == #[trigger] base64_encoded(decoded);
    lemma_base64_is_injective(decoded, bytes);
}

/// `base64`'s `Engine::encode` with `STANDARD`: the text is
/// [`base64_encoded`] of the bytes. The encoded text has to fit in memory.
#[verifier::external_body]
fn base64_encode(bytes: &[u8]) -> (r: String)
    requires
        (bytes@.len() + 2) / 3 * 4 <= isize::MAX,
    ensures
        r@ == base64_encoded(bytes@),
{
    base64::engine::general_purpose::STANDARD.encode(bytes)
}

/// `base64`'s `Engine::decode` with `STANDARD`, which wants canonical padding
/// and no trailing bits: the bytes that the text is the encoding of, or where
/// it is none, the text of the error, named [`base64_error`].
#[verifier::external_body]
fn base64_decode(s: &str) -> (r: Result<Vec<u8>, String>)
    ensures
        match r {
            Ok(bytes) => s@ == base64_encoded(bytes@),
            Err(error) => !is_base64(s@) && error@ == base64_error(s@),
        },
{
    base64::engine::general_purpose::STANDARD.decode(s).map_err(|error| error.to_string())
}

/// Encodes recipe bytes for [`CreateInstance::recipe`].
pub fn encode_recipe(recipe: &[u8]) -> (r: String)
    requires
        (recipe@.len() + 2) / 3 * 4 <= isize::MAX,
    ensures
        r@ == base64_encoded(recipe@),
        base64_decoded(r@) == Ok::<Seq<u8>, Seq<char>>(recipe@),
{
    proof {
        law_base64_reads_back(recipe@);
    }
    base64_encode(recipe)
}

/// Decodes [`CreateInstance::recipe`]; `invalid-recipe` where it is not
/// base64. What [`encode_recipe`] encoded decodes to what it was given.
pub fn decode_recipe(recipe: &str) -> (r: Result<Vec<u8>, Problem>)
    ensures
        match base64_decoded(recipe@) {
            Ok(bytes) => r is Ok && (r->Ok_0)@ == bytes,
            Err(error) => r is Err && (r->Err_0)@ == invalid_recipe_problem(error),
        },
{
    let decoded = base64_decode(recipe);
    proof {
        if decoded is Ok {
            law_base64_reads_back((decoded->Ok_0)@);
        }
    }
    recipe_of(decoded)
}

/// What a decoding of a recipe means to the request it came with.
pub fn recipe_of(decoded: Result<Vec<u8>, String>) -> (r: Result<Vec<u8>, Problem>)
    ensures
        match decoded {
            Ok(bytes) => r == Ok::<Vec<u8>, Problem>(bytes),
            Err(error) => r is Err && (r->Err_0)@ == invalid_recipe_problem(error@),
        },
{
    match decoded {
        Ok(bytes) => Ok(bytes),
        Err(error) => Err(Problem::invalid_recipe(error.as_str())),
    }
}

/// Different numbers are written differently.
proof fn lemma_signed_decimal_is_injective(a: int, b: int)
    requires
        text::signed_decimal(a) == text::signed_decimal(b),
    ensures
        a == b,
{
    let m = if a < 0 {
        (-a) as nat
    } else {
        a as nat
    };
    let n = if b < 0 {
        (-b) as nat
    } else {
        b as nat
    };
    text::law_a_number_reads_back(m, (m + n) as int);
    text::law_a_number_reads_back(n, (m + n) as int);
    text::lemma_decimal_digits(m);
    text::lemma_decimal_digits(n);
    if a < 0 {
        assert(text::signed_decimal(a)[0] == '-');
        assert(text::signed_decimal(a).skip(1) =~= text::decimal(m));
    } else {
        assert(text::signed_decimal(a)[0] == text::decimal(m)[0]);
    }
    if b < 0 {
        assert(text::signed_decimal(b)[0] == '-');
        assert(text::signed_decimal(b).skip(1) =~= text::decimal(n));
    } else {
        assert(text::signed_decimal(b)[0] == text::decimal(n)[0]);
    }
}

proof fn lemma_middle<A>(before: Seq<A>, a: Seq<A>, b: Seq<A>, after: Seq<A>)
    requires
        before + a + after == before + b + after,
    ensures
        a == b,
{
    let s = before + a + after;
    let t = before + b + after;
    assert(s.len() == t.len());
    assert(s.subrange(before.len() as int, (before.len() + a.len()) as int) =~= a);
    assert(t.subrange(before.len() as int, (before.len() + b.len()) as int) =~= b);
}

/// Every problem has the HTTP status for its kind: what a client got wrong is
/// in the four hundreds, what went wrong while bringing up is a server's
/// error.
pub proof fn law_problems_have_their_status(
    a: Seq<char>,
    b: Seq<char>,
    version: Option<Seq<char>>,
    versions: Seq<Seq<char>>,
    n: nat,
    status: i32,
)
    ensures
        invalid_body_problem(a).status == 400,
        invalid_recipe_problem(a).status == 400,
        invalid_ttl_problem(n).status == 400,
        unknown_service_problem(a, version).status == 404,
        ambiguous_version_problem(a, versions).status == 409,
        no_initializer_problem(a).status == 400,
        unknown_instance_problem(a).status == 404,
        instance_exited_problem(a).status == 409,
        prepare_failed_problem(status).status == 500,
        initializer_failed_problem(status).status == 500,
        bring_up_failed_problem(a).status == 500,
        template_failed_problem(a).status == 500,
        recipe_file_invalid_problem(a, b).status == 400,
        recipe_files_refused_problem(a).status == 403,
        recipe_too_large_problem(n).status == 413,
        internal_problem(a).status == 500,
        unknown_route_problem().status == 404,
        method_not_allowed_problem().status == 405,
{
}

/// Every problem has the stable identifier of its kind.
pub proof fn law_problems_have_their_identifier(
    a: Seq<char>,
    b: Seq<char>,
    version: Option<Seq<char>>,
    versions: Seq<Seq<char>>,
    n: nat,
    status: i32,
)
    ensures
        invalid_body_problem(a).kind == "urn:servicecache:"@ + "invalid-body"@,
        invalid_recipe_problem(a).kind == "urn:servicecache:"@ + "invalid-recipe"@,
        invalid_ttl_problem(n).kind == "urn:servicecache:"@ + "invalid-ttl"@,
        unknown_service_problem(a, version).kind == "urn:servicecache:"@ + "unknown-service"@,
        ambiguous_version_problem(a, versions).kind == "urn:servicecache:"@
            + "ambiguous-version"@,
        no_initializer_problem(a).kind == "urn:servicecache:"@ + "no-initializer"@,
        unknown_instance_problem(a).kind == "urn:servicecache:"@ + "unknown-instance"@,
        instance_exited_problem(a).kind == "urn:servicecache:"@ + "instance-exited"@,
        prepare_failed_problem(status).kind == "urn:servicecache:"@ + "prepare-failed"@,
        initializer_failed_problem(status).kind == "urn:servicecache:"@ + "initializer-failed"@,
        bring_up_failed_problem(a).kind == "urn:servicecache:"@ + "bring-up-failed"@,
        template_failed_problem(a).kind == "urn:servicecache:"@ + "template-failed"@,
        recipe_file_invalid_problem(a, b).kind == "urn:servicecache:"@ + "recipe-file-invalid"@,
        recipe_files_refused_problem(a).kind == "urn:servicecache:"@ + "recipe-files-refused"@,
        recipe_too_large_problem(n).kind == "urn:servicecache:"@ + "recipe-too-large"@,
        internal_problem(a).kind == "urn:servicecache:"@ + "internal"@,
        unknown_route_problem().kind == "urn:servicecache:"@ + "unknown-route"@,
        method_not_allowed_problem().kind == "urn:servicecache:"@ + "method-not-allowed"@,
{
}

/// A problem says what it is about: two that are about different instances,
/// services, statuses or errors differ.
pub proof fn law_problems_say_what_they_are_about(
    a: Seq<char>,
    b: Seq<char>,
    m: nat,
    n: nat,
    i: i32,
    j: i32,
)
    ensures
        unknown_instance_problem(a) == unknown_instance_problem(b) ==> a == b,
        instance_exited_problem(a) == instance_exited_problem(b) ==> a == b,
        no_initializer_problem(a) == no_initializer_problem(b) ==> a == b,
        unknown_service_problem(a, None) == unknown_service_problem(b, None) ==> a == b,
        invalid_body_problem(a).detail == Some(a),
        invalid_recipe_problem(a).detail == Some(a),
        bring_up_failed_problem(a).detail == Some(a),
        template_failed_problem(a).detail == Some(a),
        recipe_files_refused_problem(a).detail == Some(a),
        internal_problem(a).detail == Some(a),
        prepare_failed_problem(i) == prepare_failed_problem(j) ==> i == j,
        initializer_failed_problem(i) == initializer_failed_problem(j) ==> i == j,
        invalid_ttl_problem(m) == invalid_ttl_problem(n) ==> m == n,
        recipe_too_large_problem(m) == recipe_too_large_problem(n) ==> m == n,
{
    let none = Seq::<char>::empty();
    if unknown_instance_problem(a) == unknown_instance_problem(b) {
        lemma_middle("no instance "@, a, b, "; it may have expired"@);
    }
    if instance_exited_problem(a) == instance_exited_problem(b) {
        lemma_middle("instance "@, a, b, " cannot be renewed"@);
    }
    if no_initializer_problem(a) == no_initializer_problem(b) {
        let end = " has no initializer to give the recipe to"@;
        assert(none + a + end =~= a + end);
        assert(none + b + end =~= b + end);
        lemma_middle(none, a, b, end);
    }
    if unknown_service_problem(a, None) == unknown_service_problem(b, None) {
        let start = "no installed service matches "@;
        assert(start + a + none =~= start + a);
        assert(start + b + none =~= start + b);
        lemma_middle(start, a, b, none);
    }
    let (x, y) = (text::signed_decimal(i as int), text::signed_decimal(j as int));
    if prepare_failed_problem(i) == prepare_failed_problem(j) {
        let start = "the prepare step exited with status "@;
        assert(start + x + none =~= start + x);
        assert(start + y + none =~= start + y);
        lemma_middle(start, x, y, none);
        lemma_signed_decimal_is_injective(i as int, j as int);
    }
    if initializer_failed_problem(i) == initializer_failed_problem(j) {
        let start = "the initializer exited with status "@;
        assert(start + x + none =~= start + x);
        assert(start + y + none =~= start + y);
        lemma_middle(start, x, y, none);
        lemma_signed_decimal_is_injective(i as int, j as int);
    }
    let (x, y) = (text::decimal(m), text::decimal(n));
    if invalid_ttl_problem(m) == invalid_ttl_problem(n) {
        let end = " seconds; the range is 1 to 86400"@;
        assert(none + x + end =~= x + end);
        assert(none + y + end =~= y + end);
        lemma_middle(none, x, y, end);
        lemma_signed_decimal_is_injective(m as int, n as int);
    }
    if recipe_too_large_problem(m) == recipe_too_large_problem(n) {
        lemma_middle("the recipe is larger than "@, x, y, " bytes"@);
        lemma_signed_decimal_is_injective(m as int, n as int);
    }
}

/// A service that is not found is named with its version, where one was asked
/// for.
pub proof fn law_a_missing_version_is_named(service: Seq<char>, version: Seq<char>)
    ensures
        unknown_service_problem(service, Some(version)).detail == Some(
            "no installed service matches "@ + service + "@"@ + version,
        ),
        unknown_service_problem(service, None).detail == Some(
            "no installed service matches "@ + service,
        ),
{
    assert("no installed service matches "@ + (service + "@"@ + version)
        =~= "no installed service matches "@ + service + "@"@ + version);
}

/// What a problem is holds everything it says.
pub proof fn law_a_problem_is_what_it_says(problem: Problem)
    ensures
        problem@.kind == problem.kind@,
        problem@.title == problem.title@,
        problem@.status == problem.status,
        problem@.detail is Some <==> problem.detail is Some,
        problem@.detail matches Some(detail) ==> detail == (problem.detail->0)@,
{
}

/// An encoding is in the standard alphabet, padded to whole groups of four:
/// three bytes make four symbols, and padding only ends it.
pub proof fn law_base64_is_standard_and_padded(bytes: Seq<u8>)
    ensures
        base64_encoded(bytes).len() == (bytes.len() + 2) / 3 * 4,
        forall|i: int|
            0 <= i < base64_encoded(bytes).len() ==> {
                let c = #[trigger] base64_encoded(bytes)[i];
                ||| 'A' <= c <= 'Z'
                ||| 'a' <= c <= 'z'
                ||| '0' <= c <= '9'
                ||| c == '+'
                ||| c == '/'
                ||| c == '=' && bytes.len() % 3 != 0 && i >= base64_encoded(bytes).len() - 2
            },
        bytes.len() % 3 != 0 ==> base64_encoded(bytes).last() == '=',
    decreases bytes.len(),
{
    if bytes.len() > 0 {
        lemma_base64_head(bytes);
        let s = base64_encoded(bytes);
        if bytes.len() > 2 {
            let rest = bytes.skip(3);
            law_base64_is_standard_and_padded(rest);
            assert(s.len() == 4 + base64_encoded(rest).len());
            assert((bytes.len() + 2) / 3 * 4 == 4 + (rest.len() + 2) / 3 * 4);
            assert forall|i: int| 4 <= i < s.len() implies s[i] == #[trigger] base64_encoded(
                rest,
            )[i - 4] by {
                assert(s.skip(4)[i - 4] == s[i]);
            }
        }
        assert forall|i: int| 0 <= i < s.len() implies {
            let c = #[trigger] s[i];
            ||| 'A' <= c <= 'Z'
            ||| 'a' <= c <= 'z'
            ||| '0' <= c <= '9'
            ||| c == '+'
            ||| c == '/'
            ||| c == '=' && bytes.len() % 3 != 0 && i >= s.len() - 2
        } by {
            if i < 4 {
                lemma_symbol_range(base64_bits(bytes, i));
            } else {
                assert(s[i] == base64_encoded(bytes.skip(3))[i - 4]);
            }
        }
    }
}

proof fn lemma_symbol_range(bits: int)
    requires
        0 <= bits < 64,
    ensures
        ({
            let c = base64_symbol(bits);
            ||| 'A' <= c <= 'Z'
            ||| 'a' <= c <= 'z'
            ||| '0' <= c <= '9'
            ||| c == '+'
            ||| c == '/'
        }),
{
}

/// A problem with several versions lists them all, one with a file names it and
/// says why, and a problem with the route says no more than its title.
pub proof fn law_problems_name_versions_and_files(
    service: Seq<char>,
    versions: Seq<Seq<char>>,
    file: Seq<char>,
    error: Seq<char>,
    seconds: nat,
    id: Seq<char>,
    status: i32,
)
    ensures
        ambiguous_version_problem(service, versions).detail == Some(
            service + " is installed in several versions ("@ + text::joined(versions, ", "@)
                + "); name one"@,
        ),
        recipe_file_invalid_problem(file, error).detail == Some(file + ": "@ + error),
        unknown_route_problem().detail is None,
        method_not_allowed_problem().detail is None,
        invalid_ttl_problem(seconds).detail == Some(
            text::decimal(seconds) + " seconds; the range is 1 to 86400"@,
        ),
        recipe_too_large_problem(seconds).detail == Some(
            "the recipe is larger than "@ + text::decimal(seconds) + " bytes"@,
        ),
        unknown_instance_problem(id).detail == Some(
            "no instance "@ + id + "; it may have expired"@,
        ),
        instance_exited_problem(id).detail == Some("instance "@ + id + " cannot be renewed"@),
        no_initializer_problem(service).detail == Some(
            service + " has no initializer to give the recipe to"@,
        ),
        prepare_failed_problem(status).detail == Some(
            "the prepare step exited with status "@ + text::signed_decimal(status as int),
        ),
        initializer_failed_problem(status).detail == Some(
            "the initializer exited with status "@ + text::signed_decimal(status as int),
        ),
{
}

/// Problems of one kind have one title, whatever they are about, and no two
/// kinds share it.
pub proof fn law_problems_of_a_kind_share_their_title(
    a: Seq<char>,
    b: Seq<char>,
    version: Option<Seq<char>>,
    versions: Seq<Seq<char>>,
    n: nat,
    status: i32,
)
    ensures
        invalid_body_problem(a).title == "The request body is not valid"@,
        invalid_recipe_problem(a).title == "The recipe is not valid base64"@,
        invalid_ttl_problem(n).title == "The TTL is out of range"@,
        unknown_service_problem(a, version).title == "No installed service matches"@,
        ambiguous_version_problem(a, versions).title
            == "The service is installed in several versions"@,
        no_initializer_problem(a).title == "The service takes no recipe"@,
        unknown_instance_problem(a).title == "No such instance"@,
        instance_exited_problem(a).title == "The instance's guest has exited"@,
        prepare_failed_problem(status).title == "The prepare step failed"@,
        initializer_failed_problem(status).title == "The initializer failed"@,
        bring_up_failed_problem(a).title == "The instance did not come up"@,
        template_failed_problem(a).title == "The template could not be forked"@,
        recipe_file_invalid_problem(a, b).title == "A recipe file cannot be read"@,
        recipe_files_refused_problem(a).title == "Recipe files are not accepted"@,
        recipe_too_large_problem(n).title == "The recipe is too large"@,
        internal_problem(a).title == "Internal error"@,
        unknown_route_problem().title == "No such route"@,
        method_not_allowed_problem().title == "The route does not answer this method"@,
{
}

} // verus!
