//! The manager's side of a host process: what its replies mean to what was
//! asked, and which events come in between.

use crate::host::protocol;
use crate::host::protocol::Answer;
use crate::host::protocol::Reply;
use crate::host::protocol::Run;
use crate::host::title;
use crate::path::UnixPath;
use crate::text;
use vstd::prelude::*;

verus! {

/// The descriptor number the host finds its control channel on.
pub const HOST_CONTROL_FD: u64 = 3;

/// What was asked of a host.
#[derive(Clone, Copy, Debug, PartialEq, Eq, Structural)]
pub enum Asked {
    Prepare,
    Start,
    Initialize,
    Freeze,
    Fork,
    /// The first word of a clone on its own channel.
    Announcement,
    /// Nothing: an event was awaited.
    Event,
}

/// Why a host's answer is none.
#[derive(Debug)]
pub enum ManagerError {
    /// The host closed its control channel.
    Closed { host: u32 },
    /// The host answered `error`.
    Refused { host: u32, text: String },
    /// The guest exited instead.
    GuestExited { host: u32, status: i32 },
    /// The reply does not go with what was asked.
    Unexpected { host: u32, asked: Asked, reply: Reply },
    /// The host serves nowhere yet.
    NoEndpoint { host: u32 },
    /// Where the host says it serves is no address.
    BadEndpoint { endpoint: String, error: String },
}

/// Why, over the texts themselves.
pub enum Trouble {
    Closed { host: u32 },
    Refused { host: u32, text: Seq<char> },
    GuestExited { host: u32, status: i32 },
    Unexpected { host: u32, asked: Asked, reply: Answer },
    NoEndpoint { host: u32 },
    BadEndpoint { endpoint: Seq<char>, error: Seq<char> },
}

impl View for ManagerError {
    type V = Trouble;

    open spec fn view(&self) -> Trouble {
        match self {
            ManagerError::Closed { host } => Trouble::Closed { host: *host },
            ManagerError::Refused { host, text } => Trouble::Refused { host: *host, text: text@ },
            ManagerError::GuestExited { host, status } => Trouble::GuestExited {
                host: *host,
                status: *status,
            },
            ManagerError::Unexpected { host, asked, reply } => Trouble::Unexpected {
                host: *host,
                asked: *asked,
                reply: reply@,
            },
            ManagerError::NoEndpoint { host } => Trouble::NoEndpoint { host: *host },
            ManagerError::BadEndpoint { endpoint, error } => Trouble::BadEndpoint {
                endpoint: endpoint@,
                error: error@,
            },
        }
    }
}

/// What was asked, in words.
pub open spec fn asked_text(asked: Asked, host: u32) -> Seq<char> {
    match asked {
        Asked::Prepare => "unexpected reply to prepare"@,
        Asked::Start => "unexpected reply to start"@,
        Asked::Initialize => "unexpected reply to initialize"@,
        Asked::Freeze => "unexpected reply to freeze"@,
        Asked::Fork => "unexpected reply to fork"@,
        Asked::Announcement => "unexpected announcement from clone "@ + text::decimal(
            host as nat,
        ),
        Asked::Event => "unexpected reply from host "@ + text::decimal(host as nat),
    }
}

/// Why, in words.
pub open spec fn trouble_text(trouble: Trouble) -> Seq<char> {
    match trouble {
        Trouble::Closed { host } => "host "@ + text::decimal(host as nat)
            + " closed its control channel"@,
        Trouble::Refused { host, text } => "host "@ + text::decimal(host as nat) + " refused: "@
            + text,
        Trouble::GuestExited { host, status } => "the guest in host "@ + text::decimal(host as nat)
            + " exited with status "@ + text::signed_decimal(status as int),
        Trouble::Unexpected { host, asked, reply } => asked_text(asked, host) + ": "@
            + protocol::spelled_out(reply),
        Trouble::NoEndpoint { host } => "host "@ + text::decimal(host as nat)
            + " has no endpoint yet"@,
        Trouble::BadEndpoint { endpoint, error } => "bad endpoint from the host: "@ + endpoint
            + ": "@ + error,
    }
}

impl Asked {
    /// What was asked, in words.
    fn unexpected(self, host: u32) -> (r: String)
        ensures
            r@ == asked_text(self, host),
    {
        match self {
            Asked::Prepare => "unexpected reply to prepare".to_owned(),
            Asked::Start => "unexpected reply to start".to_owned(),
            Asked::Initialize => "unexpected reply to initialize".to_owned(),
            Asked::Freeze => "unexpected reply to freeze".to_owned(),
            Asked::Fork => "unexpected reply to fork".to_owned(),
            Asked::Announcement => {
                let mut out = "unexpected announcement from clone ".to_owned();
                text::push_decimal(&mut out, host as u64);
                out
            },
            Asked::Event => {
                let mut out = "unexpected reply from host ".to_owned();
                text::push_decimal(&mut out, host as u64);
                out
            },
        }
    }
}

impl ManagerError {
    /// Why, in words.
    pub fn text(&self) -> (r: String)
        ensures
            r@ == trouble_text(self@),
    {
        match self {
            ManagerError::Closed { host } => {
                let mut out = "host ".to_owned();
                text::push_decimal(&mut out, *host as u64);
                out.append(" closed its control channel");
                out
            },
            ManagerError::Refused { host, text } => {
                let mut out = "host ".to_owned();
                text::push_decimal(&mut out, *host as u64);
                out.append(" refused: ");
                out.append(text.as_str());
                out
            },
            ManagerError::GuestExited { host, status } => {
                let mut out = "the guest in host ".to_owned();
                text::push_decimal(&mut out, *host as u64);
                out.append(" exited with status ");
                text::push_signed(&mut out, *status);
                out
            },
            ManagerError::Unexpected { host, asked, reply } => {
                let mut out = asked.unexpected(*host);
                out.append(": ");
                out.append(reply.spelled().as_str());
                out
            },
            ManagerError::NoEndpoint { host } => {
                let mut out = "host ".to_owned();
                text::push_decimal(&mut out, *host as u64);
                out.append(" has no endpoint yet");
                out
            },
            ManagerError::BadEndpoint { endpoint, error } => {
                let mut out = "bad endpoint from the host: ".to_owned();
                out.append(endpoint.as_str());
                out.append(": ");
                out.append(error.as_str());
                out
            },
        }
    }
}

/// A host process as the manager sees it.
#[derive(Debug)]
pub struct HostProcess {
    pub pid: u32,
    /// Whether this manager spawned it; a forked clone is a child of its
    /// template, not of the manager.
    pub spawned: bool,
    /// Unsolicited events received while waiting for a reply.
    pub events: Vec<Reply>,
    /// Where the guest serves, once it does.
    pub endpoint: Option<String>,
}

/// What a message means to one who waits for a reply.
#[derive(Debug)]
pub enum ReplyStep {
    Reply(Reply),
    /// It was an event, and is kept; the reply is still to come.
    Again,
    Failed(ManagerError),
}

/// What a message means to one who waits for the guest to exit.
#[derive(Debug)]
pub enum ExitStep {
    /// The guest exited with this status.
    Exited(i32),
    /// It was another event, and is kept.
    Again,
    Failed(ManagerError),
}

/// Whether a reply is the report of a reaped clone.
pub open spec fn is_child_exit(reply: Reply) -> bool {
    reply matches Reply::Exited { run: Run::Child, .. }
}

impl HostProcess {
    /// A host this manager has spawned.
    pub fn spawned(pid: u32) -> (r: Self)
        ensures
            r.pid == pid,
            r.spawned,
            r.events@ == Seq::<Reply>::empty(),
            r.endpoint is None,
    {
        HostProcess { pid, spawned: true, events: Vec::new(), endpoint: None }
    }

    /// A clone that a host has forked.
    pub fn forked(pid: u32, endpoint: String) -> (r: Self)
        ensures
            r.pid == pid,
            !r.spawned,
            r.events@ == Seq::<Reply>::empty(),
            r.endpoint == Some(endpoint),
    {
        HostProcess { pid, spawned: false, events: Vec::new(), endpoint: Some(endpoint) }
    }

    /// The host's process id.
    pub fn pid(&self) -> (r: u32)
        ensures
            r == self.pid,
    {
        self.pid
    }

    /// Where the guest serves.
    pub fn endpoint(&self) -> (r: Result<&String, ManagerError>)
        ensures
            match self.endpoint {
                Some(endpoint) => r is Ok && *(r->Ok_0) == endpoint,
                None => r is Err && (r->Err_0)@ == (Trouble::NoEndpoint { host: self.pid }),
            },
    {
        match &self.endpoint {
            Some(endpoint) => Ok(endpoint),
            None => Err(ManagerError::NoEndpoint { host: self.pid }),
        }
    }

    /// Events received so far (clones reaped by a template).
    pub fn events(&self) -> (r: &Vec<Reply>)
        ensures
            *r == self.events,
    {
        &self.events
    }

    /// Takes the events received so far, leaving none behind.
    pub fn take_events(&mut self) -> (r: Vec<Reply>)
        ensures
            r == old(self).events,
            final(self).events@ == Seq::<Reply>::empty(),
            final(self).pid == old(self).pid,
            final(self).spawned == old(self).spawned,
            final(self).endpoint == old(self).endpoint,
    {
        let mut events: Vec<Reply> = Vec::new();
        std::mem::swap(&mut events, &mut self.events);
        events
    }

    /// The same host with other events.
    pub open spec fn same_host(self, other: HostProcess) -> bool {
        &&& self.pid == other.pid
        &&& self.spawned == other.spawned
        &&& self.endpoint == other.endpoint
    }

    /// Takes a message while waiting for a reply; `None` at the end of the
    /// channel. Reports of reaped clones are kept, in order.
    pub fn reply(&mut self, message: Option<Reply>) -> (r: ReplyStep)
        ensures
            final(self).same_host(*old(self)),
            match message {
                None => r matches ReplyStep::Failed(error) && error@ == (Trouble::Closed {
                    host: old(self).pid,
                }),
                Some(Reply::Error { text }) => r matches ReplyStep::Failed(error) && error@ == (
                Trouble::Refused { host: old(self).pid, text: text@ }),
                Some(Reply::Exited { run: Run::Guest, status, .. }) => r matches ReplyStep::Failed(
                    error,
                ) && error@ == (Trouble::GuestExited { host: old(self).pid, status }),
                Some(Reply::Exited { run: Run::Child, .. }) => r is Again,
                Some(other) => r == ReplyStep::Reply(other),
            },
            final(self).events@ == if message is Some && is_child_exit(message->0) {
                old(self).events@.push(message->0)
            } else {
                old(self).events@
            },
    {
        match message {
            None => ReplyStep::Failed(ManagerError::Closed { host: self.pid }),
            Some(Reply::Error { text }) => ReplyStep::Failed(
                ManagerError::Refused { host: self.pid, text },
            ),
            Some(Reply::Exited { run, status, pid }) => match run {
                Run::Guest => ReplyStep::Failed(
                    ManagerError::GuestExited { host: self.pid, status },
                ),
                Run::Child => {
                    self.events.push(Reply::Exited { run, status, pid });
                    ReplyStep::Again
                },
                _ => ReplyStep::Reply(Reply::Exited { run, status, pid }),
            },
            Some(other) => ReplyStep::Reply(other),
        }
    }

    /// Takes a message the host sent unprompted: `exited`, for the guest or
    /// for a clone the host reaped.
    pub fn read_event(&self, message: Option<Reply>) -> (r: Result<Reply, ManagerError>)
        ensures
            match message {
                None => r is Err && (r->Err_0)@ == (Trouble::Closed { host: self.pid }),
                Some(Reply::Error { text }) => r is Err && (r->Err_0)@ == (Trouble::Refused {
                    host: self.pid,
                    text: text@,
                }),
                Some(Reply::Exited { run, status, pid }) => r == Ok::<Reply, ManagerError>(
                    Reply::Exited { run, status, pid },
                ),
                Some(other) => r is Err && (r->Err_0)@ == (Trouble::Unexpected {
                    host: self.pid,
                    asked: Asked::Event,
                    reply: other@,
                }),
            },
    {
        match message {
            None => Err(ManagerError::Closed { host: self.pid }),
            Some(Reply::Error { text }) => Err(ManagerError::Refused { host: self.pid, text }),
            Some(Reply::Exited { run, status, pid }) => Ok(Reply::Exited { run, status, pid }),
            Some(other) => Err(
                ManagerError::Unexpected { host: self.pid, asked: Asked::Event, reply: other },
            ),
        }
    }

    /// Takes a message while waiting for the guest to exit. Other events are
    /// kept, in order.
    pub fn wait_exit(&mut self, message: Option<Reply>) -> (r: ExitStep)
        ensures
            final(self).same_host(*old(self)),
            match message {
                Some(Reply::Exited { run: Run::Guest, status, .. }) => r == ExitStep::Exited(
                    status,
                ) && final(self).events@ == old(self).events@,
                Some(Reply::Exited { run, status, pid }) => r is Again && final(self).events@
                    == old(self).events@.push(Reply::Exited { run, status, pid }),
                _ => r is Failed && final(self).events@ == old(self).events@,
            },
            r matches ExitStep::Failed(error) ==> error@ == match message {
                None => Trouble::Closed { host: old(self).pid },
                Some(Reply::Error { text }) => Trouble::Refused {
                    host: old(self).pid,
                    text: text@,
                },
                Some(other) => Trouble::Unexpected {
                    host: old(self).pid,
                    asked: Asked::Event,
                    reply: other@,
                },
            },
    {
        match self.read_event(message) {
            Ok(Reply::Exited { run, status, pid }) => {
                if run == Run::Guest {
                    return ExitStep::Exited(status);
                }
                self.events.push(Reply::Exited { run, status, pid });
                ExitStep::Again
            },
            Ok(other) => ExitStep::Failed(
                ManagerError::Unexpected { host: self.pid, asked: Asked::Event, reply: other },
            ),
            Err(error) => ExitStep::Failed(error),
        }
    }

    /// The status of the prepare step.
    pub fn prepare(&self, reply: Reply) -> (r: Result<i32, ManagerError>)
        ensures
            match reply {
                Reply::Exited { run: Run::Prepare, status, .. } => r == Ok::<i32, ManagerError>(
                    status,
                ),
                _ => r is Err && (r->Err_0)@ == (Trouble::Unexpected {
                    host: self.pid,
                    asked: Asked::Prepare,
                    reply: reply@,
                }),
            },
    {
        if let Reply::Exited { run, status, .. } = &reply {
            if *run == Run::Prepare {
                return Ok(*status);
            }
        }
        Err(ManagerError::Unexpected { host: self.pid, asked: Asked::Prepare, reply })
    }

    /// The status of the initializer.
    pub fn initialize(&self, reply: Reply) -> (r: Result<i32, ManagerError>)
        ensures
            match reply {
                Reply::Exited { run: Run::Initializer, status, .. } => r == Ok::<
                    i32,
                    ManagerError,
                >(status),
                _ => r is Err && (r->Err_0)@ == (Trouble::Unexpected {
                    host: self.pid,
                    asked: Asked::Initialize,
                    reply: reply@,
                }),
            },
    {
        if let Reply::Exited { run, status, .. } = &reply {
            if *run == Run::Initializer {
                return Ok(*status);
            }
        }
        Err(ManagerError::Unexpected { host: self.pid, asked: Asked::Initialize, reply })
    }

    /// The guest has been started: the endpoint it serves. `parsed` is what
    /// reading the endpoint of the reply as an address came to; one that is no
    /// address is not taken.
    pub fn start(&mut self, reply: Reply, parsed: Result<(), String>) -> (r: Result<
        String,
        ManagerError,
    >)
        ensures
            final(self).pid == old(self).pid,
            final(self).spawned == old(self).spawned,
            final(self).events == old(self).events,
            match (reply, parsed) {
                (Reply::Ready { endpoint }, Ok(_)) => r == Ok::<String, ManagerError>(endpoint)
                    && final(self).endpoint == Some(endpoint),
                (Reply::Ready { endpoint }, Err(error)) => r is Err && (r->Err_0)@ == (
                Trouble::BadEndpoint { endpoint: endpoint@, error: error@ })
                    && final(self).endpoint == old(self).endpoint,
                _ => r is Err && (r->Err_0)@ == (Trouble::Unexpected {
                    host: old(self).pid,
                    asked: Asked::Start,
                    reply: reply@,
                }) && final(self).endpoint == old(self).endpoint,
            },
    {
        match reply {
            Reply::Ready { endpoint } => {
                if let Err(error) = parsed {
                    return Err(ManagerError::BadEndpoint { endpoint, error });
                }
                self.endpoint = Some(endpoint.clone());
                Ok(endpoint)
            },
            other => Err(
                ManagerError::Unexpected { host: self.pid, asked: Asked::Start, reply: other },
            ),
        }
    }

    /// The number of guest threads frozen.
    pub fn freeze(&self, reply: Reply) -> (r: Result<usize, ManagerError>)
        ensures
            match reply {
                Reply::Frozen { coroutines } => r == Ok::<usize, ManagerError>(coroutines),
                _ => r is Err && (r->Err_0)@ == (Trouble::Unexpected {
                    host: self.pid,
                    asked: Asked::Freeze,
                    reply: reply@,
                }),
            },
    {
        match reply {
            Reply::Frozen { coroutines } => Ok(coroutines),
            other => Err(
                ManagerError::Unexpected { host: self.pid, asked: Asked::Freeze, reply: other },
            ),
        }
    }

    /// The clone a host has forked; it has yet to announce itself. `parsed` is
    /// what reading the endpoint of the reply as an address came to.
    pub fn fork(&self, reply: Reply, parsed: Result<(), String>) -> (r: Result<
        HostProcess,
        ManagerError,
    >)
        ensures
            match (reply, parsed) {
                (Reply::Forked { pid, endpoint }, Ok(_)) => {
                    &&& r is Ok
                    &&& (r->Ok_0).pid == pid
                    &&& (r->Ok_0).endpoint == Some(endpoint)
                    &&& !(r->Ok_0).spawned
                    &&& (r->Ok_0).events@ == Seq::<Reply>::empty()
                },
                (Reply::Forked { endpoint, .. }, Err(error)) => r is Err && (r->Err_0)@ == (
                Trouble::BadEndpoint { endpoint: endpoint@, error: error@ }),
                _ => r is Err && (r->Err_0)@ == (Trouble::Unexpected {
                    host: self.pid,
                    asked: Asked::Fork,
                    reply: reply@,
                }),
            },
    {
        match reply {
            Reply::Forked { pid, endpoint } => {
                if let Err(error) = parsed {
                    return Err(ManagerError::BadEndpoint { endpoint, error });
                }
                Ok(HostProcess::forked(pid, endpoint))
            },
            other => Err(
                ManagerError::Unexpected { host: self.pid, asked: Asked::Fork, reply: other },
            ),
        }
    }

    /// Whether a clone's first word is that it has been forked.
    pub fn announced(&self, reply: Reply) -> (r: Result<(), ManagerError>)
        ensures
            match reply {
                Reply::Forked { .. } => r is Ok,
                _ => r is Err && (r->Err_0)@ == (Trouble::Unexpected {
                    host: self.pid,
                    asked: Asked::Announcement,
                    reply: reply@,
                }),
            },
    {
        match reply {
            Reply::Forked { .. } => Ok(()),
            other => Err(
                ManagerError::Unexpected {
                    host: self.pid,
                    asked: Asked::Announcement,
                    reply: other,
                },
            ),
        }
    }
}

/// The arguments a host is spawned with, as bytes: its manifest, its control
/// channel, its cache, the padding its title is written over, and the log
/// directives where there are any.
pub open spec fn host_arguments(
    manifest: Seq<u8>,
    cache_dir: Seq<u8>,
    directives: Option<Seq<char>>,
) -> Seq<Seq<u8>> {
    let common = seq![
        vstd::utf8::encode_utf8("host"@),
        vstd::utf8::encode_utf8("--manifest"@),
        manifest,
        vstd::utf8::encode_utf8("--control-fd"@),
        vstd::utf8::encode_utf8(text::decimal(HOST_CONTROL_FD as nat)),
        vstd::utf8::encode_utf8("--cache-dir"@),
        cache_dir,
        vstd::utf8::encode_utf8(title::BUFFER_ARG@),
    ];
    match directives {
        Some(directives) => common + seq![
            vstd::utf8::encode_utf8("--log"@),
            vstd::utf8::encode_utf8(directives),
        ],
        None => common,
    }
}

/// The views of a list of byte strings.
pub open spec fn byte_views(v: Seq<Vec<u8>>) -> Seq<Seq<u8>> {
    Seq::new(v.len(), |i: int| v[i]@)
}

/// The arguments a host is spawned with.
pub fn host_args(manifest: &UnixPath, cache_dir: &UnixPath, directives: Option<&str>) -> (r: Vec<
    Vec<u8>,
>)
    ensures
        byte_views(r@) == host_arguments(
            manifest@,
            cache_dir@,
            match directives {
                Some(directives) => Some(directives@),
                None => None,
            },
        ),
{
    let mut args: Vec<Vec<u8>> = Vec::new();
    args.push("host".as_bytes_vec());
    args.push("--manifest".as_bytes_vec());
    args.push(crate::bytes::copied(&manifest.bytes));
    args.push("--control-fd".as_bytes_vec());
    args.push(text::decimal_text(HOST_CONTROL_FD).as_str().as_bytes_vec());
    args.push("--cache-dir".as_bytes_vec());
    args.push(crate::bytes::copied(&cache_dir.bytes));
    args.push(title::BUFFER_ARG.as_bytes_vec());
    if let Some(directives) = directives {
        args.push("--log".as_bytes_vec());
        args.push(directives.as_bytes_vec());
    }
    proof {
        assert(byte_views(args@) =~= host_arguments(
            manifest@,
            cache_dir@,
            match directives {
                Some(directives) => Some(directives@),
                None => None,
            },
        ));
    }
    args
}

/// A host is told its manifest, its control channel, the cache and, where there
/// are some, its log directives, each behind the flag for it.
pub proof fn law_a_host_is_told_what_it_needs(
    manifest: Seq<u8>,
    cache_dir: Seq<u8>,
    directives: Option<Seq<char>>,
)
    ensures
        ({
            let args = host_arguments(manifest, cache_dir, directives);
            let word = |s: Seq<char>| vstd::utf8::encode_utf8(s);
            let flagged = |flag: Seq<char>, value: Seq<u8>|
                exists|i: int|
                    0 < i < args.len() - 1 && #[trigger] args[i] == word(flag) && args[i + 1]
                        == value;
            &&& args[0] == word("host"@)
            &&& flagged("--manifest"@, manifest)
            &&& flagged("--cache-dir"@, cache_dir)
            &&& flagged("--control-fd"@, word(text::decimal(3)))
            &&& args.contains(word(title::BUFFER_ARG@))
            &&& directives matches Some(said) ==> flagged("--log"@, word(said)) && args.len() == 10
            &&& directives is None ==> args.len() == 8
        }),
{
    let args = host_arguments(manifest, cache_dir, directives);
    assert(args[1] == vstd::utf8::encode_utf8("--manifest"@) && args[2] == manifest);
    assert(args[3] == vstd::utf8::encode_utf8("--control-fd"@));
    assert(args[5] == vstd::utf8::encode_utf8("--cache-dir"@) && args[6] == cache_dir);
    assert(args[7] == vstd::utf8::encode_utf8(title::BUFFER_ARG@));
    if directives is Some {
        assert(args[8] == vstd::utf8::encode_utf8("--log"@));
    }
}

/// What is said of trouble with a host names the host, and ends with what the
/// host said or did.
pub proof fn law_trouble_names_the_host(trouble: Trouble)
    ensures
        ({
            let said = trouble_text(trouble);
            &&& trouble matches Trouble::Closed { host } ==> ("host "@ + text::decimal(
                host as nat,
            )).is_prefix_of(said)
            &&& trouble matches Trouble::Refused { host, text } ==> ("host "@ + text::decimal(
                host as nat,
            )).is_prefix_of(said) && said.skip(said.len() - text.len()) == text
            &&& trouble matches Trouble::GuestExited { host, status } ==> {
                let shown = text::signed_decimal(status as int);
                &&& ("the guest in host "@ + text::decimal(host as nat)).is_prefix_of(said)
                &&& said.skip(said.len() - shown.len()) == shown
            }
            &&& trouble matches Trouble::Unexpected { host, asked, reply } ==> {
                let shown = protocol::spelled_out(reply);
                &&& asked_text(asked, host).is_prefix_of(said)
                &&& said.skip(said.len() - shown.len()) == shown
            }
            &&& trouble matches Trouble::NoEndpoint { host } ==> ("host "@ + text::decimal(
                host as nat,
            )).is_prefix_of(said)
            &&& trouble matches Trouble::BadEndpoint { endpoint, error } ==> (
            "bad endpoint from the host: "@ + endpoint).is_prefix_of(said) && said.skip(
                said.len() - error.len(),
            ) == error
        }),
{
    let said = trouble_text(trouble);
    match trouble {
        Trouble::Closed { host } | Trouble::NoEndpoint { host } => {
            let start = "host "@ + text::decimal(host as nat);
            assert(start =~= said.subrange(0, start.len() as int));
        },
        Trouble::Refused { host, text } => {
            let start = "host "@ + text::decimal(host as nat);
            assert(start =~= said.subrange(0, start.len() as int));
            assert(said.skip(said.len() - text.len()) =~= text);
        },
        Trouble::GuestExited { host, status } => {
            let start = "the guest in host "@ + text::decimal(host as nat);
            let shown = text::signed_decimal(status as int);
            assert(start =~= said.subrange(0, start.len() as int));
            assert(said.skip(said.len() - shown.len()) =~= shown);
        },
        Trouble::Unexpected { host, asked, reply } => {
            let start = asked_text(asked, host);
            let shown = protocol::spelled_out(reply);
            assert(start =~= said.subrange(0, start.len() as int));
            assert(said.skip(said.len() - shown.len()) =~= shown);
        },
        Trouble::BadEndpoint { endpoint, error } => {
            let start = "bad endpoint from the host: "@ + endpoint;
            assert(start =~= said.subrange(0, start.len() as int));
            assert(said.skip(said.len() - error.len()) =~= error);
        },
    }
}

/// Only the exit of a child is an event that may come at any time; it is kept
/// with all that it says.
pub proof fn law_only_exits_of_children_are_events(status: i32, pid: Option<u32>, reply: Reply)
    ensures
        is_child_exit(Reply::Exited { run: Run::Child, status, pid }),
        is_child_exit(reply) ==> reply is Exited && reply->run == Run::Child,
        !is_child_exit(Reply::Exited { run: Run::Guest, status, pid }),
        !is_child_exit(Reply::Exited { run: Run::Prepare, status, pid }),
        !is_child_exit(Reply::Exited { run: Run::Initializer, status, pid }),
{
}

/// What is said of a reply that does not fit names what was asked for.
pub proof fn law_an_unfitting_reply_names_the_question(host: u32, error: Seq<char>)
    ensures
        asked_text(Asked::Prepare, host) == "unexpected reply to prepare"@,
        asked_text(Asked::Start, host) == "unexpected reply to start"@,
        asked_text(Asked::Initialize, host) == "unexpected reply to initialize"@,
        asked_text(Asked::Freeze, host) == "unexpected reply to freeze"@,
        asked_text(Asked::Fork, host) == "unexpected reply to fork"@,
        asked_text(Asked::Announcement, host) == "unexpected announcement from clone "@
            + text::decimal(host as nat),
        asked_text(Asked::Event, host) == "unexpected reply from host "@ + text::decimal(
            host as nat,
        ),
        trouble_text(Trouble::Closed { host }) == "host "@ + text::decimal(host as nat)
            + " closed its control channel"@,
        trouble_text(Trouble::NoEndpoint { host }) == "host "@ + text::decimal(host as nat)
            + " has no endpoint yet"@,
        trouble_text(Trouble::Refused { host, text: error }) == "host "@ + text::decimal(
            host as nat,
        ) + " refused: "@ + error,
{
}

/// Trouble with a host is seen with all that is known of it.
pub proof fn law_trouble_is_seen_as_it_is(error: ManagerError)
    ensures
        error matches ManagerError::Closed { host } ==> error@ == (Trouble::Closed { host }),
        error matches ManagerError::Refused { host, text } ==> error@ == (Trouble::Refused {
            host,
            text: text@,
        }),
        error matches ManagerError::GuestExited { host, status } ==> error@ == (
        Trouble::GuestExited { host, status }),
        error matches ManagerError::Unexpected { host, asked, reply } ==> error@ == (
        Trouble::Unexpected { host, asked, reply: reply@ }),
        error matches ManagerError::NoEndpoint { host } ==> error@ == (Trouble::NoEndpoint { host }),
        error matches ManagerError::BadEndpoint { endpoint, error: cause } ==> error@ == (
        Trouble::BadEndpoint { endpoint: endpoint@, error: cause@ }),
{
}

/// Arguments are seen one by one, in their order.
pub proof fn law_arguments_are_seen_in_their_order(args: Seq<Vec<u8>>, i: int)
    requires
        0 <= i < args.len(),
    ensures
        byte_views(args).len() == args.len(),
        byte_views(args)[i] == args[i]@,
{
}

} // verus!
