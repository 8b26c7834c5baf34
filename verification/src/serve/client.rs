//! What a client of the manager's API asks for, and what a refusal is.

use super::api::Problem;
use super::api::ProblemView;
use crate::path;
use crate::text;
use vstd::prelude::*;

verus! {

/// The manager refused a request; carries the problem it answered with.
#[derive(Debug)]
pub struct ApiError(pub Problem);

/// A refusal in words: the status, the title and the detail.
pub open spec fn api_error_text(problem: ProblemView) -> Seq<char> {
    let start = "the manager refused ("@ + text::decimal(problem.status as nat) + "): "@
        + problem.title;
    match problem.detail {
        Some(detail) => start + ": "@ + detail,
        None => start,
    }
}

impl ApiError {
    /// The refusal in words.
    pub fn text(&self) -> (r: String)
        ensures
            r@ == api_error_text(self.0@),
    {
        let mut out = "the manager refused (".to_owned();
        text::push_decimal(&mut out, self.0.status as u64);
        out.append("): ");
        out.append(self.0.title.as_str());
        if let Some(detail) = &self.0.detail {
            out.append(": ");
            out.append(detail.as_str());
        }
        out
    }
}

/// A method of HTTP.
#[derive(Clone, Copy, Debug, PartialEq, Eq, Structural)]
pub enum Method {
    Get,
    Post,
    Delete,
}

/// A call of the API: what is asked, and the status of an answer that is no
/// refusal.
#[derive(Debug)]
pub struct Call {
    pub method: Method,
    pub path: String,
    pub expected: u16,
}

/// The path of the installed services.
pub const SERVICES_PATH: &'static str = "/v1/services";

/// The path of the held instances.
pub const INSTANCES_PATH: &'static str = "/v1/instances";

/// The path of an instance.
pub open spec fn instance_path(id: Seq<char>) -> Seq<char> {
    INSTANCES_PATH@ + "/"@ + id
}

impl Call {
    /// The installed services.
    pub fn services() -> (r: Self)
        ensures
            r.method == Method::Get,
            r.path@ == SERVICES_PATH@,
            r.expected == 200,
    {
        Call { method: Method::Get, path: SERVICES_PATH.to_owned(), expected: 200 }
    }

    /// Creates an instance.
    pub fn create() -> (r: Self)
        ensures
            r.method == Method::Post,
            r.path@ == INSTANCES_PATH@,
            r.expected == 201,
    {
        Call { method: Method::Post, path: INSTANCES_PATH.to_owned(), expected: 201 }
    }

    /// The held instances.
    pub fn instances() -> (r: Self)
        ensures
            r.method == Method::Get,
            r.path@ == INSTANCES_PATH@,
            r.expected == 200,
    {
        Call { method: Method::Get, path: INSTANCES_PATH.to_owned(), expected: 200 }
    }

    /// One instance's state.
    pub fn instance(id: &str) -> (r: Self)
        ensures
            r.method == Method::Get,
            r.path@ == instance_path(id@),
            r.expected == 200,
    {
        let mut path = INSTANCES_PATH.to_owned();
        path.append("/");
        path.append(id);
        Call { method: Method::Get, path, expected: 200 }
    }

    /// Restarts an instance's TTL.
    pub fn renew(id: &str) -> (r: Self)
        ensures
            r.method == Method::Post,
            r.path@ == instance_path(id@) + "/renew"@,
            r.expected == 200,
    {
        let mut path = INSTANCES_PATH.to_owned();
        path.append("/");
        path.append(id);
        path.append("/renew");
        Call { method: Method::Post, path, expected: 200 }
    }

    /// Destroys an instance.
    pub fn delete(id: &str) -> (r: Self)
        ensures
            r.method == Method::Delete,
            r.path@ == instance_path(id@),
            r.expected == 204,
    {
        let mut path = INSTANCES_PATH.to_owned();
        path.append("/");
        path.append(id);
        Call { method: Method::Delete, path, expected: 204 }
    }

    /// Whether an answer with this status is a refusal.
    pub fn is_refused(&self, status: u16) -> (r: bool)
        ensures
            r == (status != self.expected),
    {
        status != self.expected
    }
}

/// The error for a reply with the wrong status.
#[derive(Debug)]
pub enum Refusal {
    /// The problem it carried.
    Api(ApiError),
    /// A description of what came instead.
    Other(String),
}

/// What came instead of a problem, in words.
pub open spec fn other_answer(status: Seq<char>, body: Seq<u8>) -> Seq<char> {
    "the manager answered "@ + status + ": "@ + path::lossy(body)
}

/// The error for a reply with the wrong status: the problem its body holds,
/// or a description of what came instead.
pub fn refusal(problem: Option<Problem>, status: &str, body: &[u8]) -> (r: Refusal)
    ensures
        match problem {
            Some(problem) => r == Refusal::Api(ApiError(problem)),
            None => r matches Refusal::Other(text) && text@ == other_answer(status@, body@),
        },
{
    match problem {
        Some(problem) => Refusal::Api(ApiError(problem)),
        None => {
            let mut out = "the manager answered ".to_owned();
            out.append(status);
            out.append(": ");
            out.append(path::lossy_text(body).as_str());
            Refusal::Other(out)
        },
    }
}

/// An instance is asked for under its own identifier: it stands behind the
/// path of all instances and a slash, and two identifiers share no path.
pub proof fn law_an_instance_has_its_own_path(id: Seq<char>, other: Seq<char>)
    ensures
        instance_path(id) == "/v1/instances/"@ + id,
        instance_path(id) == instance_path(other) ==> id == other,
        "/v1/services"@ == SERVICES_PATH@,
        "/v1/instances"@ == INSTANCES_PATH@,
        !id.contains('/') && !other.contains('/') ==> instance_path(id) + "/renew"@
            != instance_path(other),
{
    reveal_strlit("/v1/instances");
    reveal_strlit("/v1/instances/");
    reveal_strlit("/");
    reveal_strlit("/renew");
    let start = "/v1/instances/"@;
    let n = start.len() as int;
    assert(instance_path(id) =~= start + id);
    assert(instance_path(other) =~= start + other);
    assert(instance_path(id).skip(n) =~= id);
    assert(instance_path(other).skip(n) =~= other);
    if instance_path(id) + "/renew"@ == instance_path(other) {
        let whole = instance_path(other);
        assert(whole[n + id.len()] == '/');
        assert(other[id.len() as int] == '/');
        assert(other.contains('/'));
    }
}

/// A refusal that is told says the status, the title and, where there is one,
/// the detail of the problem.
pub proof fn law_a_refusal_says_what_the_problem_says(problem: ProblemView)
    ensures
        ({
            let said = api_error_text(problem);
            let start = "the manager refused ("@ + text::decimal(problem.status as nat) + "): "@
                + problem.title;
            &&& start.is_prefix_of(said)
            &&& problem.detail is None ==> said.len() == start.len()
            &&& problem.detail matches Some(detail) ==> said.len() == start.len() + 2
                + detail.len() && said.skip(said.len() - detail.len()) == detail
        }),
{
    reveal_strlit(": ");
    let said = api_error_text(problem);
    let start = "the manager refused ("@ + text::decimal(problem.status as nat) + "): "@
        + problem.title;
    assert(start =~= said.subrange(0, start.len() as int));
    if problem.detail is Some {
        let detail = problem.detail->0;
        assert(said.skip(said.len() - detail.len()) =~= detail);
    }
}

/// Any other answer is told with its status and all of its body.
pub proof fn law_another_answer_is_told_whole(status: Seq<char>, body: Seq<u8>)
    ensures
        ({
            let said = other_answer(status, body);
            &&& ("the manager answered "@ + status).is_prefix_of(said)
            &&& said.skip(said.len() - path::lossy(body).len()) == path::lossy(body)
        }),
{
    let said = other_answer(status, body);
    let start = "the manager answered "@ + status;
    assert(start =~= said.subrange(0, start.len() as int));
    assert(said.skip(said.len() - path::lossy(body).len()) =~= path::lossy(body));
}

} // verus!
