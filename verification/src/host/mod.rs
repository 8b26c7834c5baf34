//! One guest in one process, driven over a control channel by the manager.
//! See [`protocol`] for the messages.
//!
//! [`Host`] decides: it is told which request arrived or what happened, and
//! says what to do. The program performs it and hands back what came of it.

pub mod freeze;
pub mod futex;
pub mod guest;
pub mod net;
pub mod probe;
pub mod protocol;
pub mod tasks;
pub mod title;

use crate::digest;
use crate::manifest::Manifest;
use crate::text;
use net::Address;
use net::AddressView;
use protocol::Answer;
use protocol::Reply;
use protocol::Request;
use protocol::Run;
use vstd::prelude::*;

verus! {

/// Coroutine stack for guest calls: 16 MiB. Host imports run on it too, so it
/// is sized for the deepest call path rather than for the guest alone.
pub const WASM_STACK_SIZE: usize = 16777216;

/// How often the control loop checks the guest and reaps children, in
/// milliseconds.
pub const TICK_MS: u64 = 100;

/// How long one slice of a frozen guest's zero-page scan runs: the most a
/// fork request waits for it.
pub const COMPACTION_SLICE_MS: u64 = 1;

/// How long the control channel must be quiet before the next slice.
pub const COMPACTION_PAUSE_MS: u64 = 50;

/// Where the host is in a guest's life.
#[derive(Clone, Copy, Debug, PartialEq, Eq, Structural)]
pub enum Phase {
    /// Nothing has run.
    Fresh,
    /// The prepare step has completed.
    Prepared,
    /// The guest is running (and, once `ready`, listening).
    Running { ready: bool },
    /// The guest is frozen; only `fork` and `stop` are accepted.
    Frozen,
}

/// What was announced since the host last looked.
#[derive(Clone, Copy, Debug, PartialEq, Eq, Structural)]
pub struct Events {
    /// The guest's listen completed.
    pub listening: bool,
    /// A run ended. The host asks for the run's status again, so a stale
    /// announcement costs nothing.
    pub run_ended: bool,
}

/// The byte that announces that the guest listens.
pub const LISTENING_BYTE: u8 = 1;

/// The byte that announces that a run ended.
pub const RUN_ENDED_BYTE: u8 = 2;

/// Reads the bytes of the event pipe. Only the host writes the pipe, so a
/// byte that announces nothing is an error: the first such byte.
pub fn read_events(bytes: &[u8]) -> (r: Result<Events, u8>)
    ensures
        match r {
            Ok(events) => {
                &&& forall|i: int|
                    0 <= i < bytes@.len() ==> #[trigger] bytes@[i] == LISTENING_BYTE || bytes@[i]
                        == RUN_ENDED_BYTE
                &&& events.listening == bytes@.contains(LISTENING_BYTE)
                &&& events.run_ended == bytes@.contains(RUN_ENDED_BYTE)
            },
            Err(byte) => exists|i: int|
                {
                    &&& 0 <= i < bytes@.len()
                    &&& #[trigger] bytes@[i] == byte
                    &&& byte != LISTENING_BYTE
                    &&& byte != RUN_ENDED_BYTE
                    &&& forall|j: int|
                        0 <= j < i ==> #[trigger] bytes@[j] == LISTENING_BYTE || bytes@[j]
                            == RUN_ENDED_BYTE
                },
        },
{
    let mut events = Events { listening: false, run_ended: false };
    let mut i: usize = 0;
    while i < bytes.len()
        invariant
            i <= bytes@.len(),
            forall|j: int|
                0 <= j < i ==> #[trigger] bytes@[j] == LISTENING_BYTE || bytes@[j]
                    == RUN_ENDED_BYTE,
            events.listening == bytes@.take(i as int).contains(LISTENING_BYTE),
            events.run_ended == bytes@.take(i as int).contains(RUN_ENDED_BYTE),
        decreases bytes@.len() - i,
    {
        let byte: u8 = bytes[i];
        proof {
            let seen = bytes@.take(i as int);
            let now = bytes@.take(i + 1);
            assert(now =~= seen.push(byte));
            assert forall|x: u8| now.contains(x) <==> seen.contains(x) || x == byte by {
                if seen.contains(x) {
                    let k = choose|k: int| 0 <= k < seen.len() && seen[k] == x;
                    assert(now[k] == x);
                }
                assert(now[i as int] == byte);
            }
        }
        if byte == LISTENING_BYTE {
            events.listening = true;
        } else if byte == RUN_ENDED_BYTE {
            events.run_ended = true;
        } else {
            return Err(byte);
        }
        i = i + 1;
    }
    proof {
        assert(bytes@.take(bytes@.len() as int) =~= bytes@);
    }
    Ok(events)
}

/// A request that has been accepted and not yet answered.
#[derive(Clone, Copy, Debug)]
pub enum Pending {
    Prepare,
    /// The guest is starting; it listens already where its probe is running.
    Start { probing: bool },
    /// The initializer runs with the recipe whose digest this is.
    Initialize { recipe: [u8; 32] },
    Freeze,
    Fork,
}

/// What a pending request is.
pub enum PendingView {
    Prepare,
    Start { probing: bool },
    Initialize { recipe: Seq<u8> },
    Freeze,
    Fork,
}

impl View for Pending {
    type V = PendingView;

    open spec fn view(&self) -> PendingView {
        match self {
            Pending::Prepare => PendingView::Prepare,
            Pending::Start { probing } => PendingView::Start { probing: *probing },
            Pending::Initialize { recipe } => PendingView::Initialize { recipe: recipe@ },
            Pending::Freeze => PendingView::Freeze,
            Pending::Fork => PendingView::Fork,
        }
    }
}

/// What the host has to do after a request or an event.
#[derive(Debug)]
pub enum Action {
    /// Send the reply and keep serving.
    Send(Reply),
    /// End the process without a reply.
    Exit,
    /// Send the reply and end the process.
    SendAndExit(Reply),
    /// Run the prepare module.
    RunPrepare,
    /// Take the listening socket and start the guest.
    StartGuest,
    /// Run the initializer with these arguments and the recipe.
    RunInitializer(Vec<String>),
    /// Freeze the guest.
    Freeze,
    /// Fork the frozen guest.
    Fork,
    /// Probe the guest's endpoint.
    Probe,
    /// Nothing: keep waiting.
    Wait,
}

/// What an action is.
pub enum Act {
    Send(Answer),
    Exit,
    SendAndExit(Answer),
    RunPrepare,
    StartGuest,
    RunInitializer(Seq<Seq<char>>),
    Freeze,
    Fork,
    Probe,
    Wait,
}

impl View for Action {
    type V = Act;

    open spec fn view(&self) -> Act {
        match self {
            Action::Send(reply) => Act::Send(reply@),
            Action::Exit => Act::Exit,
            Action::SendAndExit(reply) => Act::SendAndExit(reply@),
            Action::RunPrepare => Act::RunPrepare,
            Action::StartGuest => Act::StartGuest,
            Action::RunInitializer(args) => Act::RunInitializer(text::texts(args@)),
            Action::Freeze => Act::Freeze,
            Action::Fork => Act::Fork,
            Action::Probe => Act::Probe,
            Action::Wait => Act::Wait,
        }
    }
}

/// A host: its manifest and how far its guest has got.
#[derive(Debug)]
pub struct Host {
    pub manifest: Manifest,
    pub phase: Phase,
    /// The request that is being carried out.
    pub pending: Option<Pending>,
    /// Where the guest serves, once it does.
    pub address: Option<Address>,
    /// The digest of the recipe the guest was initialized with.
    pub recipe: Option<[u8; 32]>,
    /// Whether the zero-page scan of a frozen guest is under way.
    pub compacting: bool,
}

/// What a host is.
#[verifier::ext_equal]
pub struct HostView {
    /// Whether the manifest has a prepare module.
    pub prepares: bool,
    /// Whether the manifest has a readiness probe.
    pub probes: bool,
    /// The initializer's arguments, where the manifest has one.
    pub initializer: Option<Seq<Seq<char>>>,
    pub phase: Phase,
    pub pending: Option<PendingView>,
    pub address: Option<AddressView>,
    pub recipe: Option<Seq<u8>>,
    pub compacting: bool,
}

impl View for Host {
    type V = HostView;

    open spec fn view(&self) -> HostView {
        HostView {
            prepares: match self.manifest.prepare {
                Some(prepare) => prepare.module is Some,
                None => false,
            },
            probes: self.manifest.guest.ready is Some,
            initializer: match self.manifest.initializer {
                Some(initializer) => Some(text::texts(initializer.args@)),
                None => None,
            },
            phase: self.phase,
            pending: match self.pending {
                Some(pending) => Some(pending@),
                None => None,
            },
            address: match self.address {
                Some(address) => Some(address@),
                None => None,
            },
            recipe: match self.recipe {
                Some(recipe) => Some(recipe@),
                None => None,
            },
            compacting: self.compacting,
        }
    }
}

/// A refusal.
pub open spec fn refusal(text: Seq<char>) -> Act {
    Act::Send(Answer::Error { text })
}

/// Why a request cannot be taken while another is carried out.
pub open spec fn busy_text(pending: PendingView) -> Seq<char> {
    match pending {
        PendingView::Prepare => "busy: Prepare is running"@,
        PendingView::Start { .. } => "busy: the guest is starting"@,
        PendingView::Initialize { .. } => "busy: Initializer is running"@,
        PendingView::Freeze => "busy: the guest is freezing"@,
        PendingView::Fork => "busy: the guest is forking"@,
    }
}

/// An argument with the guest's address filled in.
pub open spec fn filled(arg: Seq<char>, address: AddressView) -> Seq<char> {
    text::replaced(
        text::replaced(arg, "{host}"@, address.ip),
        "{port}"@,
        text::decimal(address.port as nat),
    )
}

/// The arguments with the guest's address filled in.
pub open spec fn all_filled(args: Seq<Seq<char>>, address: AddressView) -> Seq<Seq<char>> {
    Seq::new(args.len(), |i: int| filled(args[i], address))
}

/// What a host does with a request that comes with `fds` descriptors and, for
/// an initialization, with the recipe whose digest is `recipe`.
pub open spec fn handled(host: HostView, request: Request, fds: int, recipe: Seq<u8>) -> (
    HostView,
    Act,
) {
    let listening = host.phase == (Phase::Running { ready: true });
    if request == Request::Stop {
        (host, Act::Exit)
    } else if let Some(pending) = host.pending {
        (host, refusal(busy_text(pending)))
    } else {
        match request {
            Request::Prepare => if host.phase != Phase::Fresh {
                (host, refusal("prepare is only accepted before anything has run"@))
            } else if host.prepares {
                (HostView { pending: Some(PendingView::Prepare), ..host }, Act::RunPrepare)
            } else {
                (
                    HostView { phase: Phase::Prepared, ..host },
                    Act::Send(Answer::Exited { run: Run::Prepare, status: 0, pid: None }),
                )
            },
            Request::Start => if host.phase != Phase::Fresh && host.phase != Phase::Prepared {
                (host, refusal("start is only accepted once, before the guest runs"@))
            } else if fds != 1 {
                (host, refusal("start needs exactly one descriptor, the listening socket"@))
            } else {
                (
                    HostView { pending: Some(PendingView::Start { probing: false }), ..host },
                    Act::StartGuest,
                )
            },
            Request::Initialize => if !listening {
                (host, refusal("initialize is only accepted while the guest is listening"@))
            } else {
                match (host.initializer, host.address) {
                    (None, _) => (host, refusal("the manifest has no initializer"@)),
                    (_, None) => (host, refusal(net::net_error_text(net::NetError::NothingPassed))),
                    (Some(args), Some(address)) => (
                        HostView { pending: Some(PendingView::Initialize { recipe }), ..host },
                        Act::RunInitializer(all_filled(args, address)),
                    ),
                }
            },
            Request::Freeze => if !listening {
                (host, refusal("freeze is only accepted while the guest is listening"@))
            } else {
                (
                    HostView { phase: Phase::Frozen, pending: Some(PendingView::Freeze), ..host },
                    Act::Freeze,
                )
            },
            Request::Fork => if host.phase != Phase::Frozen {
                (host, refusal("fork is only accepted on a frozen host"@))
            } else if fds != 2 {
                (
                    host,
                    refusal(
                        "fork needs two descriptors: the child's control end and its listening socket"@,
                    ),
                )
            } else {
                (HostView { pending: Some(PendingView::Fork), ..host }, Act::Fork)
            },
            Request::Stop => (host, Act::Exit),
        }
    }
}

/// Builds a refusal.
fn refuse(reason: &str) -> (r: Action)
    ensures
        r@ == refusal(reason@),
{
    Action::Send(Reply::Error { text: reason.to_owned() })
}

/// Fills the guest's address into the arguments.
fn fill_args(args: &Vec<String>, address: &Address) -> (r: Vec<String>)
    ensures
        text::texts(r@) == all_filled(text::texts(args@), address@),
{
    let port = text::decimal_text(address.port as u64);
    let mut r: Vec<String> = Vec::new();
    let ghost all = all_filled(text::texts(args@), address@);
    let mut i: usize = 0;
    proof {
        reveal_strlit("{host}");
        reveal_strlit("{port}");
        assert(text::texts(r@) =~= all.take(0));
    }
    while i < args.len()
        invariant
            i <= args@.len(),
            all == all_filled(text::texts(args@), address@),
            port@ == text::decimal(address.port as nat),
            "{host}"@.len() > 0,
            "{port}"@.len() > 0,
            text::texts(r@) == all.take(i as int),
        decreases args@.len() - i,
    {
        let ghost before = text::texts(r@);
        let with_host = text::replace(args[i].as_str(), "{host}", address.ip.as_str());
        let with_port = text::replace(with_host.as_str(), "{port}", port.as_str());
        r.push(with_port);
        proof {
            assert(text::texts(r@) =~= before.push(all[i as int]));
            assert(all.take(i + 1) =~= all.take(i as int).push(all[i as int]));
        }
        i = i + 1;
    }
    proof {
        assert(all.take(args@.len() as int) =~= all);
    }
    r
}

impl Host {
    /// A host in which nothing has run.
    pub fn new(manifest: Manifest) -> (r: Self)
        ensures
            r.manifest == manifest,
            r.phase == Phase::Fresh,
            r.pending is None,
            r.address is None,
            r.recipe is None,
            !r.compacting,
    {
        Host {
            manifest,
            phase: Phase::Fresh,
            pending: None,
            address: None,
            recipe: None,
            compacting: false,
        }
    }

    /// How long the host waits for a request or an event, in milliseconds.
    pub fn poll_timeout(&self) -> (r: u64)
        ensures
            r == if self.compacting {
                COMPACTION_PAUSE_MS
            } else {
                TICK_MS
            },
            r == if self.compacting {
                50u64
            } else {
                100
            },
    {
        if self.compacting {
            COMPACTION_PAUSE_MS
        } else {
            TICK_MS
        }
    }

    /// The zero-page scan is done.
    pub fn compacted(&mut self)
        ensures
            final(self).manifest == old(self).manifest,
            final(self)@ == (HostView { compacting: false, ..old(self)@ }),
    {
        self.compacting = false;
    }

    /// Takes a request.
    pub fn handle(&mut self, request: Request, fds: usize, payload: &[u8]) -> (r: Action)
        ensures
            final(self).manifest == old(self).manifest,
            (final(self)@, r@) == handled(
                old(self)@,
                request,
                fds as int,
                digest::sha256(payload@),
            ),
    {
        if request == Request::Stop {
            return Action::Exit;
        }
        if let Some(pending) = &self.pending {
            return match pending {
                Pending::Prepare => refuse("busy: Prepare is running"),
                Pending::Start { .. } => refuse("busy: the guest is starting"),
                Pending::Initialize { .. } => refuse("busy: Initializer is running"),
                Pending::Freeze => refuse("busy: the guest is freezing"),
                Pending::Fork => refuse("busy: the guest is forking"),
            };
        }
        match request {
            Request::Prepare => self.prepare(),
            Request::Start => self.start(fds),
            Request::Initialize => self.initialize(payload),
            Request::Freeze => self.freeze(),
            Request::Fork => self.fork(fds),
            Request::Stop => Action::Exit,
        }
    }

    fn prepare(&mut self) -> (r: Action)
        requires
            old(self).pending is None,
        ensures
            final(self).manifest == old(self).manifest,
            forall|fds: int, recipe: Seq<u8>| #[trigger]
                handled(old(self)@, Request::Prepare, fds, recipe) == (final(self)@, r@),
    {
        if self.phase != Phase::Fresh {
            return refuse("prepare is only accepted before anything has run");
        }
        let has_module: bool = match &self.manifest.prepare {
            Some(prepare) => prepare.module.is_some(),
            None => false,
        };
        if has_module {
            self.pending = Some(Pending::Prepare);
            Action::RunPrepare
        } else {
            self.phase = Phase::Prepared;
            Action::Send(Reply::Exited { run: Run::Prepare, status: 0, pid: None })
        }
    }

    fn start(&mut self, fds: usize) -> (r: Action)
        requires
            old(self).pending is None,
        ensures
            final(self).manifest == old(self).manifest,
            forall|recipe: Seq<u8>| #[trigger]
                handled(old(self)@, Request::Start, fds as int, recipe) == (final(self)@, r@),
    {
        if self.phase != Phase::Fresh && self.phase != Phase::Prepared {
            return refuse("start is only accepted once, before the guest runs");
        }
        if fds != 1 {
            return refuse("start needs exactly one descriptor, the listening socket");
        }
        self.pending = Some(Pending::Start { probing: false });
        Action::StartGuest
    }

    fn initialize(&mut self, payload: &[u8]) -> (r: Action)
        requires
            old(self).pending is None,
        ensures
            final(self).manifest == old(self).manifest,
            forall|fds: int| #[trigger]
                handled(old(self)@, Request::Initialize, fds, digest::sha256(payload@)) == (
                    final(self)@,
                    r@,
                ),
    {
        if self.phase != (Phase::Running { ready: true }) {
            return refuse("initialize is only accepted while the guest is listening");
        }
        match (&self.manifest.initializer, &self.address) {
            (None, _) => refuse("the manifest has no initializer"),
            (_, None) => refuse("no listening socket was passed"),
            (Some(initializer), Some(address)) => {
                let args = fill_args(&initializer.args, address);
                self.pending = Some(Pending::Initialize { recipe: digest::digest(payload) });
                Action::RunInitializer(args)
            },
        }
    }

    fn freeze(&mut self) -> (r: Action)
        requires
            old(self).pending is None,
        ensures
            final(self).manifest == old(self).manifest,
            forall|fds: int, recipe: Seq<u8>| #[trigger]
                handled(old(self)@, Request::Freeze, fds, recipe) == (final(self)@, r@),
    {
        if self.phase != (Phase::Running { ready: true }) {
            return refuse("freeze is only accepted while the guest is listening");
        }
        // Terminal from here, whatever happens.
        self.phase = Phase::Frozen;
        self.pending = Some(Pending::Freeze);
        Action::Freeze
    }

    fn fork(&mut self, fds: usize) -> (r: Action)
        requires
            old(self).pending is None,
        ensures
            final(self).manifest == old(self).manifest,
            forall|recipe: Seq<u8>| #[trigger]
                handled(old(self)@, Request::Fork, fds as int, recipe) == (final(self)@, r@),
    {
        if self.phase != Phase::Frozen {
            return refuse("fork is only accepted on a frozen host");
        }
        if fds != 2 {
            return refuse(
                "fork needs two descriptors: the child's control end and its listening socket",
            );
        }
        self.pending = Some(Pending::Fork);
        Action::Fork
    }
}

/// The view of an address that could not always be told.
pub open spec fn told(address: Result<Address, String>) -> Result<AddressView, Seq<char>> {
    match address {
        Ok(address) => Ok(address@),
        Err(error) => Err(error@),
    }
}

/// The view of an outcome.
pub open spec fn outcome_view<T>(outcome: Result<T, String>) -> Result<T, Seq<char>> {
    match outcome {
        Ok(value) => Ok(value),
        Err(error) => Err(error@),
    }
}

/// A request that is being carried out could not be: the host says why and
/// keeps serving.
pub open spec fn failed(host: HostView, text: Seq<char>) -> (HostView, Act) {
    (HostView { pending: None, ..host }, refusal(text))
}

/// The guest listens, and has answered its probe where it has one.
pub open spec fn became_ready(host: HostView, address: Result<AddressView, Seq<char>>) -> (
    HostView,
    Act,
) {
    let ready = HostView { phase: Phase::Running { ready: true }, pending: None, ..host };
    match address {
        Ok(address) => (
            HostView { address: Some(address), ..ready },
            Act::Send(Answer::Ready { endpoint: net::address_text(address) }),
        ),
        Err(text) => (ready, refusal(text)),
    }
}

/// What a starting guest's probe came to, in words, where it failed.
pub open spec fn probe_failure(summary: Seq<char>) -> Seq<char> {
    "the guest did not answer its readiness probe: "@ + summary
}

/// What a host does while its guest starts: ready once the guest listens and
/// has answered its probe, or dead before that.
pub open spec fn starting(
    host: HostView,
    listening: bool,
    address: Result<AddressView, Seq<char>>,
    probe: Option<Result<(), Seq<char>>>,
    guest_status: Option<i32>,
) -> (HostView, Act) {
    let probing = host.pending == Some(PendingView::Start { probing: true });
    if !probing && listening && !host.probes {
        became_ready(host, address)
    } else if !probing && listening {
        (HostView { pending: Some(PendingView::Start { probing: true }), ..host }, Act::Probe)
    } else if probing && probe is Some {
        match probe->0 {
            Ok(_) => became_ready(host, address),
            Err(summary) => failed(host, probe_failure(summary)),
        }
    } else if guest_status is Some {
        (
            HostView { pending: None, ..host },
            Act::Send(Answer::Exited { run: Run::Guest, status: guest_status->0, pid: None }),
        )
    } else {
        (host, Act::Wait)
    }
}

/// A run that a request started has ended.
pub open spec fn run_ended(host: HostView, status: i32) -> (HostView, Act) {
    match host.pending {
        Some(PendingView::Initialize { recipe }) => (
            HostView {
                pending: None,
                recipe: if status == 0 {
                    Some(recipe)
                } else {
                    host.recipe
                },
                ..host
            },
            Act::Send(Answer::Exited { run: Run::Initializer, status, pid: None }),
        ),
        _ => (
            HostView { phase: Phase::Prepared, pending: None, ..host },
            Act::Send(Answer::Exited { run: Run::Prepare, status, pid: None }),
        ),
    }
}

/// The freeze has ended. A failed one is not recoverable.
pub open spec fn froze(host: HostView, outcome: Result<usize, Seq<char>>) -> (HostView, Act) {
    match outcome {
        Ok(coroutines) => (
            HostView { pending: None, compacting: true, ..host },
            Act::Send(Answer::Frozen { coroutines }),
        ),
        Err(text) => (
            HostView { pending: None, ..host },
            Act::SendAndExit(Answer::Error { text }),
        ),
    }
}

/// In the parent: a clone has been forked.
pub open spec fn forked(host: HostView, pid: u32, address: AddressView) -> (HostView, Act) {
    (
        HostView { pending: None, ..host },
        Act::Send(Answer::Forked { pid, endpoint: net::address_text(address) }),
    )
}

/// In the child: the host has been rebuilt, or not.
pub open spec fn rebuilt(
    host: HostView,
    outcome: Result<(), Seq<char>>,
    pid: u32,
    address: AddressView,
) -> (HostView, Act) {
    match outcome {
        Ok(_) => (
            HostView {
                phase: Phase::Running { ready: true },
                pending: None,
                address: Some(address),
                compacting: false,
                ..host
            },
            Act::Send(Answer::Forked { pid, endpoint: net::address_text(address) }),
        ),
        Err(text) => (
            HostView { pending: None, ..host },
            Act::SendAndExit(Answer::Error { text }),
        ),
    }
}

/// What a host reports unasked.
#[derive(Debug)]
pub struct Tick {
    pub replies: Vec<Reply>,
    /// Whether the host ends.
    pub end: bool,
    /// The error the host ends with, where it does not just end.
    pub error: Option<String>,
}

/// The views of a list of replies.
pub open spec fn answers(replies: Seq<Reply>) -> Seq<Answer> {
    Seq::new(replies.len(), |i: int| replies[i]@)
}

/// What a host reports unasked: that the guest listens, where nothing else
/// has said so, and that it has exited. The host ends with its guest unless
/// the guest is frozen; where the guest listens at an address that cannot be
/// told it ends with the error that says why.
pub open spec fn ticked(
    host: HostView,
    listening: bool,
    address: Result<AddressView, Seq<char>>,
    guest_status: Option<i32>,
) -> (HostView, Seq<Answer>, bool, Option<Seq<char>>) {
    let announces = listening && host.phase == (Phase::Running { ready: false }) && !host.probes;
    let ready = if announces {
        HostView {
            phase: Phase::Running { ready: true },
            address: match address {
                Ok(address) => Some(address),
                Err(_) => host.address,
            },
            ..host
        }
    } else {
        host
    };
    let said = match address {
        Ok(address) => if announces {
            seq![Answer::Ready { endpoint: net::address_text(address) }]
        } else {
            Seq::empty()
        },
        Err(_) => Seq::empty(),
    };
    if announces && address is Err {
        (ready, said, true, Some(address->Err_0))
    } else if ready.phase != Phase::Frozen && guest_status is Some {
        (
            ready,
            said.push(Answer::Exited { run: Run::Guest, status: guest_status->0, pid: None }),
            true,
            None,
        )
    } else {
        (ready, said, false, None)
    }
}

/// What to add to a signal's number for the status of a process it killed.
pub const SIGNAL_STATUS: i32 = 128;

/// The report of a clone that exited.
pub fn child_exited(pid: u32, status: i32) -> (r: Reply)
    ensures
        r == (Reply::Exited { run: Run::Child, status, pid: Some(pid) }),
{
    Reply::Exited { run: Run::Child, status, pid: Some(pid) }
}

/// The report of a clone that a signal killed.
pub fn child_killed(pid: u32, signal: i32) -> (r: Reply)
    requires
        0 <= signal <= i32::MAX - SIGNAL_STATUS,
    ensures
        r == (Reply::Exited {
            run: Run::Child,
            status: (SIGNAL_STATUS + signal) as i32,
            pid: Some(pid),
        }),
        r->Exited_status == 128 + signal,
{
    Reply::Exited { run: Run::Child, status: SIGNAL_STATUS + signal, pid: Some(pid) }
}

impl Host {
    /// Whether a run started by a request is under way.
    pub open spec fn is_running_module(self) -> bool {
        self.pending matches Some(pending) && (pending is Prepare || pending is Initialize)
    }

    /// Whether the guest is being started.
    pub open spec fn is_starting(self) -> bool {
        self.pending matches Some(pending) && pending is Start
    }

    /// A request that is being carried out could not be.
    pub fn fail(&mut self, text: String) -> (r: Action)
        ensures
            final(self).manifest == old(self).manifest,
            (final(self)@, r@) == failed(old(self)@, text@),
    {
        self.pending = None;
        Action::Send(Reply::Error { text })
    }

    /// The guest has been started; it is not listening yet.
    pub fn guest_started(&mut self)
        ensures
            final(self).manifest == old(self).manifest,
            final(self)@ == (HostView { phase: Phase::Running { ready: false }, ..old(self)@ }),
    {
        self.phase = Phase::Running { ready: false };
    }

    fn become_ready(&mut self, address: Result<Address, String>) -> (r: Action)
        ensures
            final(self).manifest == old(self).manifest,
            (final(self)@, r@) == became_ready(old(self)@, told(address)),
    {
        self.phase = Phase::Running { ready: true };
        self.pending = None;
        match address {
            Ok(address) => {
                let endpoint = address.text();
                self.address = Some(address);
                Action::Send(Reply::Ready { endpoint })
            },
            Err(text) => Action::Send(Reply::Error { text }),
        }
    }

    /// Looks after a guest that is starting: whether it listens, and where;
    /// what its probe came to; whether it has exited.
    pub fn start_step(
        &mut self,
        listening: bool,
        address: Result<Address, String>,
        probe: Option<Result<(), String>>,
        guest_status: Option<i32>,
    ) -> (r: Action)
        requires
            old(self).is_starting(),
        ensures
            final(self).manifest == old(self).manifest,
            (final(self)@, r@) == starting(
                old(self)@,
                listening,
                told(address),
                match probe {
                    Some(outcome) => Some(outcome_view(outcome)),
                    None => None,
                },
                guest_status,
            ),
    {
        let probing: bool = match &self.pending {
            Some(Pending::Start { probing }) => *probing,
            _ => false,
        };
        if !probing && listening {
            if self.manifest.guest.ready.is_none() {
                return self.become_ready(address);
            }
            self.pending = Some(Pending::Start { probing: true });
            return Action::Probe;
        }
        if probing {
            if let Some(outcome) = probe {
                return match outcome {
                    Ok(()) => self.become_ready(address),
                    Err(summary) => {
                        let mut text = "the guest did not answer its readiness probe: ".to_owned();
                        text.append(summary.as_str());
                        self.fail(text)
                    },
                };
            }
        }
        if let Some(status) = guest_status {
            self.pending = None;
            return Action::Send(Reply::Exited { run: Run::Guest, status, pid: None });
        }
        Action::Wait
    }

    /// The run that a request started has ended.
    pub fn run_ended(&mut self, status: i32) -> (r: Action)
        requires
            old(self).is_running_module(),
        ensures
            final(self).manifest == old(self).manifest,
            (final(self)@, r@) == run_ended(old(self)@, status),
    {
        let pending = self.pending;
        self.pending = None;
        if let Some(Pending::Initialize { recipe }) = pending {
            if status == 0 {
                self.recipe = Some(recipe);
            }
            return Action::Send(Reply::Exited { run: Run::Initializer, status, pid: None });
        }
        self.phase = Phase::Prepared;
        Action::Send(Reply::Exited { run: Run::Prepare, status, pid: None })
    }

    /// The freeze has ended, with the number of coroutines frozen.
    pub fn freeze_ended(&mut self, outcome: Result<usize, String>) -> (r: Action)
        ensures
            final(self).manifest == old(self).manifest,
            (final(self)@, r@) == froze(old(self)@, outcome_view(outcome)),
    {
        self.pending = None;
        match outcome {
            Ok(coroutines) => {
                self.compacting = true;
                Action::Send(Reply::Frozen { coroutines })
            },
            Err(text) => Action::SendAndExit(Reply::Error { text }),
        }
    }

    /// In the parent: a clone has been forked, to serve at `address`.
    pub fn forked_parent(&mut self, pid: u32, address: &Address) -> (r: Action)
        ensures
            final(self).manifest == old(self).manifest,
            (final(self)@, r@) == forked(old(self)@, pid, address@),
    {
        self.pending = None;
        Action::Send(Reply::Forked { pid, endpoint: address.text() })
    }

    /// In the child: whether the host has been rebuilt, to serve at
    /// `address`. What it sends goes over its own channel; a child with
    /// nothing to serve says so and ends.
    pub fn forked_child(&mut self, outcome: Result<(), String>, pid: u32, address: Address) -> (r:
        Action)
        ensures
            final(self).manifest == old(self).manifest,
            (final(self)@, r@) == rebuilt(old(self)@, outcome_view(outcome), pid, address@),
    {
        self.pending = None;
        match outcome {
            Ok(()) => {
                self.phase = Phase::Running { ready: true };
                self.compacting = false;
                let endpoint = address.text();
                self.address = Some(address);
                Action::Send(Reply::Forked { pid, endpoint })
            },
            Err(text) => Action::SendAndExit(Reply::Error { text }),
        }
    }

    /// Reports what happened since the last tick: the guest listening or
    /// exiting.
    pub fn tick(
        &mut self,
        listening: bool,
        address: Result<Address, String>,
        guest_status: Option<i32>,
    ) -> (r: Tick)
        ensures
            final(self).manifest == old(self).manifest,
            (final(self)@, answers(r.replies@), r.end, text::optional_view(r.error)) == ticked(
                old(self)@,
                listening,
                told(address),
                guest_status,
            ),
    {
        let mut replies: Vec<Reply> = Vec::new();
        proof {
            assert(answers(replies@) =~= Seq::<Answer>::empty());
        }
        if listening && self.phase == (Phase::Running { ready: false })
            && self.manifest.guest.ready.is_none() {
            self.phase = Phase::Running { ready: true };
            match address {
                Ok(address) => {
                    let endpoint = address.text();
                    let ghost endpoint_view = endpoint@;
                    self.address = Some(address);
                    replies.push(Reply::Ready { endpoint });
                    proof {
                        assert(answers(replies@) =~= seq![Answer::Ready { endpoint: endpoint_view }]);
                    }
                },
                Err(error) => {
                    return Tick { replies, end: true, error: Some(error) };
                },
            }
        }
        let ghost said = answers(replies@);
        if self.phase != Phase::Frozen {
            if let Some(status) = guest_status {
                replies.push(Reply::Exited { run: Run::Guest, status, pid: None });
                proof {
                    assert(answers(replies@) =~= said.push(
                        Answer::Exited { run: Run::Guest, status, pid: None },
                    ));
                }
                return Tick { replies, end: true, error: None };
            }
        }
        Tick { replies, end: false, error: None }
    }

    /// The host's process title.
    pub fn title(&self) -> (r: String)
        ensures
            r@ == title::title(
                self.manifest.service.name@,
                self.manifest.service.version@,
                self@.recipe,
                doing(self@),
            ),
    {
        let mut state = title::State::Starting;
        match self.phase {
            Phase::Frozen => {
                state = title::State::Frozen;
            },
            Phase::Running { ready } => {
                if let Some(address) = &self.address {
                    if ready {
                        state = title::State::Serving(address.text());
                    }
                }
            },
            _ => {},
        }
        let recipe = match &self.recipe {
            Some(recipe) => Some(recipe),
            None => None,
        };
        title::render(
            self.manifest.service.name.as_str(),
            self.manifest.service.version.as_str(),
            recipe,
            &state,
        )
    }
}

/// What a host's title says it is doing.
pub open spec fn doing(host: HostView) -> title::Doing {
    match (host.phase, host.address) {
        (Phase::Frozen, _) => title::Doing::Frozen,
        (Phase::Running { ready: true }, Some(address)) => title::Doing::Serving(
            net::address_text(address),
        ),
        _ => title::Doing::Starting,
    }
}

/// Every request but `stop` is answered at once and changes nothing that is
/// owed, or is accepted and owed an answer; it is accepted only where nothing
/// is owed.
pub proof fn law_every_request_is_answered_or_accepted(
    host: HostView,
    request: Request,
    fds: int,
    recipe: Seq<u8>,
)
    requires
        request != Request::Stop,
    ensures
        ({
            let (after, act) = handled(host, request, fds, recipe);
            match act {
                Act::Send(_) => after.pending == host.pending,
                Act::RunPrepare | Act::StartGuest | Act::RunInitializer(_) | Act::Freeze
                | Act::Fork => host.pending is None && after.pending is Some,
                _ => false,
            }
        }),
{
}

/// `stop` ends the process without an answer, whatever is going on.
pub proof fn law_stop_is_not_answered(host: HostView, fds: int, recipe: Seq<u8>)
    ensures
        handled(host, Request::Stop, fds, recipe) == (host, Act::Exit),
{
}

/// What is owed is answered exactly once: each way in which an accepted
/// request can end sends one reply and leaves nothing owed, and while the
/// guest starts nothing is sent until the request is answered.
pub proof fn law_what_is_owed_is_answered_once(
    host: HostView,
    text: Seq<char>,
    status: i32,
    coroutines: Result<usize, Seq<char>>,
    pid: u32,
    serves: AddressView,
    outcome: Result<(), Seq<char>>,
    listening: bool,
    address: Result<AddressView, Seq<char>>,
    probe: Option<Result<(), Seq<char>>>,
    guest_status: Option<i32>,
)
    ensures
        failed(host, text).1 is Send && failed(host, text).0.pending is None,
        run_ended(host, status).1 is Send && run_ended(host, status).0.pending is None,
        froze(host, coroutines).0.pending is None,
        froze(host, coroutines).1 is Send || froze(host, coroutines).1 is SendAndExit,
        forked(host, pid, serves).1 is Send && forked(host, pid, serves).0.pending is None,
        rebuilt(host, outcome, pid, serves).0.pending is None,
        rebuilt(host, outcome, pid, serves).1 is Send || rebuilt(
            host,
            outcome,
            pid,
            serves,
        ).1 is SendAndExit,
        ({
            let (after, act) = starting(host, listening, address, probe, guest_status);
            match act {
                Act::Send(_) => after.pending is None,
                Act::Probe => after.pending == Some(PendingView::Start { probing: true }),
                Act::Wait => after == host,
                _ => false,
            }
        }),
{
}

/// A frozen host answers `fork` and `stop` alone: every other request is
/// refused and changes nothing.
pub proof fn law_a_frozen_host_only_forks_and_stops(
    host: HostView,
    request: Request,
    fds: int,
    recipe: Seq<u8>,
)
    requires
        host.phase == Phase::Frozen,
        request != Request::Fork,
        request != Request::Stop,
    ensures
        handled(host, request, fds, recipe).0 == host,
        handled(host, request, fds, recipe).1 matches Act::Send(Answer::Error { .. }),
{
}

/// Freezing is terminal: no request and no event takes a frozen host out of
/// its phase, nor does its guest's end; only the child of a fork runs again.
pub proof fn law_freezing_is_terminal(
    host: HostView,
    request: Request,
    fds: int,
    recipe: Seq<u8>,
    coroutines: Result<usize, Seq<char>>,
    pid: u32,
    serves: AddressView,
    text: Seq<char>,
    listening: bool,
    address: Result<AddressView, Seq<char>>,
    guest_status: Option<i32>,
)
    requires
        host.phase == Phase::Frozen,
    ensures
        handled(host, request, fds, recipe).0.phase == Phase::Frozen,
        froze(host, coroutines).0.phase == Phase::Frozen,
        forked(host, pid, serves).0.phase == Phase::Frozen,
        failed(host, text).0.phase == Phase::Frozen,
        ticked(host, listening, address, guest_status) == (
            host,
            Seq::<Answer>::empty(),
            false,
            None::<Seq<char>>,
        ),
        rebuilt(host, Ok(()), pid, serves).0.phase == (Phase::Running { ready: true }),
{
}

/// A guest with a readiness probe is never reported ready before the probe
/// has succeeded.
pub proof fn law_ready_waits_for_the_probe(
    host: HostView,
    listening: bool,
    address: Result<AddressView, Seq<char>>,
    probe: Option<Result<(), Seq<char>>>,
    guest_status: Option<i32>,
)
    requires
        host.probes,
        !(probe matches Some(Ok(_))) || host.pending != Some(PendingView::Start { probing: true }),
    ensures
        !(starting(host, listening, address, probe, guest_status).1 matches Act::Send(
            Answer::Ready { .. },
        )),
        starting(host, listening, address, probe, guest_status).0.phase == host.phase,
        ticked(host, listening, address, guest_status).0 == host,
{
}

/// A guest that has exited, with whatever status, is reported with that
/// status, as the last word of its host, which ends with it. A host whose
/// guest has not exited goes on and reports no exit.
pub proof fn law_an_exited_guest_is_reported(
    host: HostView,
    listening: bool,
    address: AddressView,
    status: i32,
)
    requires
        host.phase != Phase::Frozen,
    ensures
        ({
            let (after, replies, end, error) = ticked(host, listening, Ok(address), Some(status));
            let (waiting, said, ended, _) = ticked(host, listening, Ok(address), None);
            &&& replies.len() > 0
            &&& replies.last() == (Answer::Exited { run: Run::Guest, status, pid: None })
            &&& end
            &&& error is None
            &&& !ended
            &&& said == replies.drop_last()
            &&& forall|i: int| 0 <= i < said.len() ==> !(#[trigger] said[i] is Exited)
            &&& waiting == after
        }),
{
    let replies = ticked(host, listening, Ok(address), Some(status)).1;
    let said = ticked(host, listening, Ok(address), None).1;
    assert(replies.drop_last() =~= said);
}

/// A guest that begins to listen after the start was answered is announced
/// once with its endpoint, where no probe has to be waited for, and never
/// otherwise.
pub proof fn law_a_late_listener_is_announced(
    host: HostView,
    listening: bool,
    address: AddressView,
    status: Option<i32>,
)
    ensures
        ({
            let (after, replies, _, _) = ticked(host, listening, Ok(address), status);
            if listening && host.phase == (Phase::Running { ready: false }) && !host.probes {
                &&& replies.len() > 0
                &&& replies[0] == (Answer::Ready { endpoint: net::address_text(address) })
                &&& after.phase == (Phase::Running { ready: true })
                &&& after.address == Some(address)
                &&& ticked(after, listening, Ok(address), None).1.len() == 0
            } else {
                &&& after == host
                &&& forall|i: int| 0 <= i < replies.len() ==> !(#[trigger] replies[i] is Ready)
            }
        }),
        ({
            let (after, replies, _, _) = ticked(host, listening, Ok(address), status);
            &&& after.recipe == host.recipe
            &&& after.pending == host.pending
            &&& replies.len() <= 2
        }),
{
}

/// A host that cannot tell where its guest listens ends with that error and
/// announces nothing.
pub proof fn law_an_endpoint_that_cannot_be_told_ends_the_host(
    host: HostView,
    error: Seq<char>,
    status: Option<i32>,
)
    requires
        host.phase == (Phase::Running { ready: false }),
        !host.probes,
    ensures
        ticked(host, true, Err(error), status).1 == Seq::<Answer>::empty(),
        ticked(host, true, Err(error), status).2,
        ticked(host, true, Err(error), status).3 == Some(error),
{
}

/// When each request is carried out, on a host that is busy with none: the
/// prepare step before anything has run, the start once, with one descriptor,
/// the initializer and the freeze while the guest serves, a fork of what is
/// frozen, with two descriptors. Every other request is refused with an error
/// and changes nothing.
pub proof fn law_requests_are_carried_out_in_their_time(
    host: HostView,
    request: Request,
    fds: int,
    recipe: Seq<u8>,
)
    requires
        host.pending is None,
        request != Request::Stop,
    ensures
        ({
            let (after, act) = handled(host, request, fds, recipe);
            let serving = host.phase == (Phase::Running { ready: true });
            let unstarted = host.phase == Phase::Fresh || host.phase == Phase::Prepared;
            &&& act == Act::RunPrepare <==> request == Request::Prepare && host.phase
                == Phase::Fresh && host.prepares
            &&& act == Act::StartGuest <==> request == Request::Start && unstarted && fds == 1
            &&& act is RunInitializer <==> request == Request::Initialize && serving
                && host.initializer is Some && host.address is Some
            &&& act == Act::Freeze <==> request == Request::Freeze && serving
            &&& act == Act::Fork <==> request == Request::Fork && host.phase == Phase::Frozen
                && fds == 2
            &&& act == Act::RunPrepare ==> after.pending == Some(PendingView::Prepare)
            &&& act == Act::StartGuest ==> after.pending == Some(
                PendingView::Start { probing: false },
            )
            &&& act is RunInitializer ==> after.pending == Some(PendingView::Initialize { recipe })
            &&& act == Act::Freeze ==> after.pending == Some(PendingView::Freeze) && after.phase
                == Phase::Frozen
            &&& act == Act::Fork ==> after.pending == Some(PendingView::Fork)
            &&& act != Act::Freeze && !(act is Send) ==> after.phase == host.phase
            &&& act is Send && request == Request::Prepare && host.phase == Phase::Fresh ==> act
                == Act::Send(Answer::Exited { run: Run::Prepare, status: 0, pid: None })
                && after.phase == Phase::Prepared
            &&& act is Send && !(request == Request::Prepare && host.phase == Phase::Fresh)
                ==> after == host && act->Send_0 is Error
            &&& after.address == host.address
            &&& after.recipe == host.recipe
        }),
{
}

/// A host that is busy refuses every request but a stop, and goes on with what
/// it does.
pub proof fn law_a_busy_host_refuses(
    host: HostView,
    request: Request,
    fds: int,
    recipe: Seq<u8>,
)
    requires
        host.pending is Some,
        request != Request::Stop,
    ensures
        handled(host, request, fds, recipe).0 == host,
        handled(host, request, fds, recipe).1 matches Act::Send(Answer::Error { .. }),
{
}

/// The initializer is given every argument of the manifest, each with the
/// guest's own endpoint in the places that stand for it: an argument is the
/// same text but for `{host}` and `{port}`.
pub proof fn law_the_initializer_is_told_the_endpoint(
    host: HostView,
    fds: int,
    recipe: Seq<u8>,
    i: int,
    before: Seq<char>,
    after: Seq<char>,
)
    requires
        handled(host, Request::Initialize, fds, recipe).1 is RunInitializer,
        0 <= i < (host.initializer->0).len(),
        !before.contains('{'),
        !after.contains('{'),
        !(host.address->0).ip.contains('{'),
    ensures
        ({
            let given = handled(host, Request::Initialize, fds, recipe).1->RunInitializer_0;
            let arg = (host.initializer->0)[i];
            let address = host.address->0;
            &&& given.len() == (host.initializer->0).len()
            &&& arg == before ==> given[i] == before
            &&& arg == before + "{host}"@ + after ==> given[i] == before + address.ip + after
            &&& arg == before + "{port}"@ + after ==> given[i] == before + text::decimal(
                address.port as nat,
            ) + after
        }),
{
    let address = host.address->0;
    let ip = address.ip;
    let port = text::decimal(address.port as nat);
    reveal_strlit("{host}");
    reveal_strlit("{port}");
    text::lemma_decimal_digits(address.port as nat);
    text::law_nothing_is_replaced_without_its_start(before, "{host}"@, ip);
    text::law_nothing_is_replaced_without_its_start(before, "{port}"@, port);
    text::law_nothing_is_replaced_without_its_start(after, "{host}"@, ip);
    text::law_nothing_is_replaced_without_its_start(after, "{port}"@, port);
    text::law_an_occurrence_is_replaced(before, after, "{host}"@, ip);
    text::law_an_occurrence_is_replaced(before, after, "{port}"@, port);
    text::law_nothing_is_replaced_without_its_start(before + ip + after, "{port}"@, port);
    let arg = before + "{port}"@ + after;
    assert(text::replaced(arg, "{host}"@, ip) == arg) by {
        assert("{host}"@[1] != "{port}"@[1]);
        text::lemma_other_text_stays(before, "{port}"@, after, "{host}"@, ip);
    }
}

/// A module that has run is reported with the status it exited with, and as
/// the run it was. A recipe counts as the guest's own only where the
/// initializer exited with 0.
pub proof fn law_a_run_is_reported_with_its_status(host: HostView, status: i32)
    ensures
        ({
            let (after, act) = run_ended(host, status);
            &&& act matches Act::Send(Answer::Exited { status: told, .. }) && told == status
            &&& after.address == host.address
            &&& host.pending matches Some(PendingView::Initialize { recipe }) ==> {
                &&& act matches Act::Send(Answer::Exited { run: Run::Initializer, pid: None, .. })
                &&& after.phase == host.phase
                &&& after.recipe == if status == 0 {
                    Some(recipe)
                } else {
                    host.recipe
                }
            }
            &&& host.pending == Some(PendingView::Prepare) ==> {
                &&& act matches Act::Send(Answer::Exited { run: Run::Prepare, pid: None, .. })
                &&& after.phase == Phase::Prepared
                &&& after.recipe == host.recipe
            }
        }),
{
}

/// How a start ends: with the endpoint, once the guest listens and its probe,
/// where it has one, was answered; with the guest's status, where it exited
/// instead; with the probe's failure, where it was not answered.
pub proof fn law_a_start_ends_as_it_went(
    host: HostView,
    listening: bool,
    address: AddressView,
    probe: Option<Result<(), Seq<char>>>,
    status: Option<i32>,
)
    requires
        host.pending matches Some(PendingView::Start { .. }),
    ensures
        ({
            let probing = host.pending == Some(PendingView::Start { probing: true });
            let served = if probing {
                probe matches Some(Ok(_))
            } else {
                listening && !host.probes
            };
            let unanswered = probing && probe matches Some(Err(_));
            let waited = !served && !unanswered && !(listening && !probing);
            let (after, act) = starting(host, listening, Ok(address), probe, status);
            &&& served <==> act is Send && act->Send_0 is Ready
            &&& served ==> act == Act::Send(Answer::Ready { endpoint: net::address_text(address) })
                && after.phase == (Phase::Running { ready: true }) && after.address == Some(address)
            &&& unanswered ==> act is Send && act->Send_0 is Error && after.phase == host.phase
            &&& waited && status is Some ==> act == Act::Send(
                Answer::Exited { run: Run::Guest, status: status->0, pid: None },
            )
            &&& waited && status is None ==> act == Act::Wait
            &&& listening && !probing && host.probes ==> act == Act::Probe
        }),
{
}

/// A freeze that succeeded is reported with its coroutines and leaves the
/// template's zero pages to be given back; one that failed is reported with
/// its error and takes the host with it.
pub proof fn law_a_freeze_is_reported(host: HostView, coroutines: usize, error: Seq<char>)
    ensures
        froze(host, Ok(coroutines)).1 == Act::Send(Answer::Frozen { coroutines }),
        froze(host, Ok(coroutines)).0.compacting,
        froze(host, Ok(coroutines)).0.recipe == host.recipe,
        froze(host, Err(error)).1 == Act::SendAndExit(Answer::Error { text: error }),
{
}

/// A fork is reported by the template and by the clone with the clone's process
/// and the clone's endpoint. The clone serves what the template was
/// initialized with, at an endpoint of its own; the template stays as it is.
pub proof fn law_a_fork_is_reported_by_both(
    host: HostView,
    pid: u32,
    address: AddressView,
    error: Seq<char>,
)
    ensures
        forked(host, pid, address).1 == Act::Send(
            Answer::Forked { pid, endpoint: net::address_text(address) },
        ),
        forked(host, pid, address).1 == rebuilt(host, Ok(()), pid, address).1,
        forked(host, pid, address).0 == (HostView { pending: None, ..host }),
        ({
            let clone = rebuilt(host, Ok(()), pid, address).0;
            &&& clone.phase == (Phase::Running { ready: true })
            &&& clone.address == Some(address)
            &&& clone.recipe == host.recipe
            &&& !clone.compacting
        }),
        rebuilt(host, Err(error), pid, address).1 == Act::SendAndExit(
            Answer::Error { text: error },
        ),
{
}

/// What fails is answered with the reason it failed for.
pub proof fn law_a_failure_is_told(host: HostView, text: Seq<char>)
    ensures
        failed(host, text).1 == Act::Send(Answer::Error { text }),
        failed(host, text).0 == (HostView { pending: None, ..host }),
{
}

/// A host is titled as what it is: a frozen one as a template, one that serves
/// with the endpoint it serves at.
pub proof fn law_a_host_is_titled_as_what_it_is(host: HostView)
    ensures
        doing(host) == title::Doing::Frozen <==> host.phase == Phase::Frozen,
        host.phase == (Phase::Running { ready: true }) && host.address is Some ==> doing(host)
            == title::Doing::Serving(net::address_text(host.address->0)),
        doing(host) is Serving ==> host.phase == (Phase::Running { ready: true }),
{
}

/// What a host is told of its manifest is what the manifest says.
pub proof fn law_a_host_knows_its_manifest(host: Host)
    ensures
        host@.prepares <==> host.manifest.prepare is Some && (
        host.manifest.prepare->0).module is Some,
        host@.probes <==> host.manifest.guest.ready is Some,
        host@.initializer is Some <==> host.manifest.initializer is Some,
        host@.initializer matches Some(args) ==> args.len() == (
        host.manifest.initializer->0).args@.len() && forall|i: int|
            0 <= i < args.len() ==> #[trigger] args[i] == (host.manifest.initializer->0).args@[i]@,
        host@.phase == host.phase,
        host@.compacting == host.compacting,
        host@.pending is Some <==> host.pending is Some,
        host@.address is Some <==> host.address is Some,
        host@.recipe is Some <==> host.recipe is Some,
        host@.recipe matches Some(recipe) ==> recipe == (host.recipe->0)@,
{
}

/// What a host has to do is seen as it is.
pub proof fn law_what_a_host_has_to_do_is_seen(action: Action, pending: Pending)
    ensures
        action matches Action::Send(reply) ==> action@ == Act::Send(reply@),
        action matches Action::SendAndExit(reply) ==> action@ == Act::SendAndExit(reply@),
        action matches Action::RunInitializer(args) ==> action@ == Act::RunInitializer(
            text::texts(args@),
        ),
        action is Exit <==> action@ is Exit,
        action is RunPrepare <==> action@ is RunPrepare,
        action is StartGuest <==> action@ is StartGuest,
        action is Freeze <==> action@ is Freeze,
        action is Fork <==> action@ is Fork,
        action is Probe <==> action@ is Probe,
        action is Wait <==> action@ is Wait,
        pending is Prepare <==> pending@ is Prepare,
        pending matches Pending::Start { probing } ==> pending@ == (PendingView::Start { probing }),
        pending matches Pending::Initialize { recipe } ==> pending@ == (PendingView::Initialize {
            recipe: recipe@,
        }),
        pending is Freeze <==> pending@ is Freeze,
        pending is Fork <==> pending@ is Fork,
{
}

/// What has been answered is no longer pending, so that the next request can be
/// taken; a start that is to be probed stays pending until the probe has ended.
pub proof fn law_what_is_answered_is_not_pending(
    host: HostView,
    listening: bool,
    address: Result<AddressView, Seq<char>>,
    probe: Option<Result<(), Seq<char>>>,
    status: Option<i32>,
    exit: i32,
    froze_with: Result<usize, Seq<char>>,
    rebuilt_with: Result<(), Seq<char>>,
    pid: u32,
    own: AddressView,
)
    requires
        host.pending is Some,
    ensures
        run_ended(host, exit).0.pending is None,
        froze(host, froze_with).0.pending is None,
        froze(host, froze_with).0.phase == host.phase,
        forked(host, pid, own).0.pending is None,
        rebuilt(host, rebuilt_with, pid, own).0.pending is None,
        ({
            let (after, act) = starting(host, listening, address, probe, status);
            &&& act is Send ==> after.pending is None
            &&& act == Act::Wait ==> after == host
            &&& act == Act::Probe ==> after == (HostView {
                pending: Some(PendingView::Start { probing: true }),
                ..host
            })
            &&& act is Send || act is Wait || act is Probe
            &&& after.recipe == host.recipe
        }),
{
}

/// A start whose endpoint cannot be told, or whose probe is not answered, is
/// answered with the reason.
pub proof fn law_a_start_that_fails_says_why(
    host: HostView,
    error: Seq<char>,
    summary: Seq<char>,
    listening: bool,
    address: Result<AddressView, Seq<char>>,
    status: Option<i32>,
)
    ensures
        host.pending == Some(PendingView::Start { probing: false }) && !host.probes ==> starting(
            host,
            true,
            Err(error),
            None,
            status,
        ).1 == Act::Send(Answer::Error { text: error }),
        host.pending == Some(PendingView::Start { probing: true }) ==> starting(
            host,
            listening,
            address,
            Some(Err(summary)),
            status,
        ).1 == Act::Send(
            Answer::Error { text: "the guest did not answer its readiness probe: "@ + summary },
        ),
        host.pending == Some(PendingView::Start { probing: true }) ==> starting(
            host,
            listening,
            Err(error),
            Some(Ok(())),
            status,
        ).1 == Act::Send(Answer::Error { text: error }),
{
}

/// A frozen host has nothing to say of its guest: it neither announces nor ends.
/// On another the guest's exit is reported even where its endpoint cannot be
/// told, unless it is just then to be announced.
pub proof fn law_only_a_frozen_guest_goes_unreported(
    host: HostView,
    listening: bool,
    address: Result<AddressView, Seq<char>>,
    error: Seq<char>,
    status: i32,
    told: Option<i32>,
)
    ensures
        host.phase == Phase::Frozen ==> ticked(host, listening, address, told) == (
            host,
            Seq::<Answer>::empty(),
            false,
            None::<Seq<char>>,
        ),
        host.phase != Phase::Frozen && !(listening && host.phase == (Phase::Running {
            ready: false,
        }) && !host.probes) ==> ticked(host, listening, Err(error), Some(status)) == (
            host,
            seq![Answer::Exited { run: Run::Guest, status, pid: None }],
            true,
            None::<Seq<char>>,
        ),
{
    if host.phase != Phase::Frozen {
        assert(Seq::<Answer>::empty().push(
            Answer::Exited { run: Run::Guest, status, pid: None },
        ) =~= seq![Answer::Exited { run: Run::Guest, status, pid: None }]);
    }
}

/// A stop ends the host whatever it does. A request that comes at the wrong time
/// is told when it is accepted, and one that comes while another is carried out
/// is told which.
pub proof fn law_refusals_say_when(host: HostView, fds: int, recipe: Seq<u8>)
    ensures
        handled(host, Request::Stop, fds, recipe) == (host, Act::Exit),
        host.pending is None ==> {
            let serving = host.phase == (Phase::Running { ready: true });
            let unstarted = host.phase == Phase::Fresh || host.phase == Phase::Prepared;
            let said = |request: Request, text: Seq<char>|
                handled(host, request, fds, recipe) == (host, Act::Send(Answer::Error { text }));
            &&& host.phase != Phase::Fresh ==> said(
                Request::Prepare,
                "prepare is only accepted before anything has run"@,
            )
            &&& !unstarted ==> said(
                Request::Start,
                "start is only accepted once, before the guest runs"@,
            )
            &&& unstarted && fds != 1 ==> said(
                Request::Start,
                "start needs exactly one descriptor, the listening socket"@,
            )
            &&& !serving ==> said(
                Request::Initialize,
                "initialize is only accepted while the guest is listening"@,
            )
            &&& serving && host.initializer is None ==> said(
                Request::Initialize,
                "the manifest has no initializer"@,
            )
            &&& !serving ==> said(
                Request::Freeze,
                "freeze is only accepted while the guest is listening"@,
            )
            &&& host.phase != Phase::Frozen ==> said(
                Request::Fork,
                "fork is only accepted on a frozen host"@,
            )
        },
        host.pending matches Some(pending) ==> handled(host, Request::Fork, fds, recipe).1
            == Act::Send(
            Answer::Error {
                text: match pending {
                    PendingView::Prepare => "busy: Prepare is running"@,
                    PendingView::Start { .. } => "busy: the guest is starting"@,
                    PendingView::Initialize { .. } => "busy: Initializer is running"@,
                    PendingView::Freeze => "busy: the guest is freezing"@,
                    PendingView::Fork => "busy: the guest is forking"@,
                },
            },
        ),
{
}

/// What a host is told is passed on as it is.
pub proof fn law_what_a_host_is_told_is_passed_on(
    host: Host,
    address: Address,
    error: String,
    count: usize,
    replies: Seq<Reply>,
)
    ensures
        told(Ok(address)) == Ok::<AddressView, Seq<char>>(address@),
        told(Err(error)) == Err::<AddressView, Seq<char>>(error@),
        outcome_view(Ok::<usize, String>(count)) == Ok::<usize, Seq<char>>(count),
        outcome_view(Err::<usize, String>(error)) == Err::<usize, Seq<char>>(error@),
        answers(replies).len() == replies.len(),
        forall|i: int| 0 <= i < replies.len() ==> #[trigger] answers(replies)[i] == replies[i]@,
        host.pending matches Some(pending) ==> host@.pending == Some(pending@),
        host.address matches Some(own) ==> host@.address == Some(own@),
{
}

} // verus!
