use servicecache::host::futex::{
    absolute_timeout, woken, HostFutexResult, Support, Timespec, WaitResult, WaitStep, Waiter,
    Words,
};
use servicecache::host::guest::{exit_status, GuestRun, LoadedModules, RunStatus};
use servicecache::host::net::{
    check_shutdown, socket_ttl, Address, Bind, HostNetworking, NetError, PassedBoundSocket,
    Shutdown, ShutdownResult,
};
use servicecache::host::probe::{
    preview, Attempt, AttemptStep, Ended, ProbeStep, Probing, ReadOutcome, RESPONSE_CAP,
};
use servicecache::host::protocol::{
    encode_frame, FrameError, FrameReader, Reply, Request, Run, MAX_JSON_LEN,
};
use servicecache::host::tasks::{ForkAwareSleep, HostTaskManager};
use servicecache::host::title::{
    overwrite, region, render, RegionError, State, BUFFER_ARG, BUFFER_FLAG, BUFFER_LEN,
};
use servicecache::host::{child_exited, child_killed, read_events, Action, Host, Phase};
use servicecache::manifest::{Guest, Initializer, Manifest, Prepare, ReadyProbe, Service};
use servicecache::path::UnixPath;

fn p(s: &str) -> UnixPath {
    UnixPath::from_text(s)
}

fn address(port: u16) -> Address {
    Address { ip: "127.0.0.1".to_string(), port, v6: false }
}

fn probe() -> ReadyProbe {
    ReadyProbe { send: b"\x00ping".to_vec(), matches: r"^ok\x00".to_string() }
}

fn manifest(ready: Option<ReadyProbe>) -> Manifest {
    Manifest {
        service: Service {
            name: "exampledb".to_string(),
            version: "1.2.3".to_string(),
            extensions: Vec::new(),
        },
        prepare: Some(Prepare {
            fs: Vec::new(),
            module: Some(p("/s/prepare.wasm")),
            args: Vec::new(),
            stdin_file: None,
        }),
        guest: Guest { module: p("/s/server.wasm"), args: Vec::new(), listen_port: 3306, ready },
        initializer: Some(Initializer {
            module: p("/s/client.wasm"),
            args: vec!["--host={host}".to_string(), "{port}/{port}".to_string()],
        }),
        directory: p("/s"),
    }
}

// The readiness probe.

/// One canned connection: everything the server says, then its end.
fn attempt(probe: &ReadyProbe, responses: &[&[u8]]) -> Result<(), String> {
    let mut attempt = Attempt::new();
    for response in responses {
        if !attempt.reads_on(false) {
            return attempt.finish(probe, Ended::Deadline);
        }
        match attempt.read(probe, &ReadOutcome::Bytes(response.to_vec())) {
            AttemptStep::Matched => return Ok(()),
            AttemptStep::ReadOn => {}
            AttemptStep::End(ended) => return attempt.finish(probe, ended),
        }
    }
    match attempt.read(probe, &ReadOutcome::Closed) {
        AttemptStep::End(ended) => attempt.finish(probe, ended),
        other => panic!("{other:?}"),
    }
}

#[test]
fn attempt_matches_only_the_serving_response() {
    let summary = attempt(&probe(), &[b"no\x00starting up\x00"]).expect_err("must not match");
    assert!(summary.contains("unmatched bytes"), "{summary}");
    assert!(summary.contains(r"no\x00starting up\x00"), "{summary}");
    attempt(&probe(), &[b"ok\x00v1"]).expect("must match");
}

#[test]
fn an_empty_probe_matches_a_server_that_speaks_first() {
    let probe = ReadyProbe { send: Vec::new(), matches: r"(?s-u)\A.{2}\x02".to_string() };
    attempt(&probe, &[b"\x0a\x80\x02server hello\x00"]).expect("must match");
}

#[test]
fn a_response_may_arrive_in_pieces() {
    attempt(&probe(), &[b"o", b"k", b"\x00v1"]).expect("must match");
    let summary = attempt(&probe(), &[]).expect_err("nothing came");
    assert_eq!(summary, "the connection closed without a response");
    let summary = attempt(&probe(), &[b"o"]).expect_err("too little came");
    assert!(summary.starts_with("the connection closed after 1 unmatched bytes, starting "));
}

#[test]
fn a_response_is_read_up_to_its_cap() {
    let mut attempt = Attempt::new();
    assert!(attempt.reads_on(false));
    assert!(!attempt.reads_on(true));
    attempt.read(&probe(), &ReadOutcome::Bytes(vec![b'x'; RESPONSE_CAP]));
    assert!(!attempt.reads_on(false));
    assert_eq!(attempt.read(&probe(), &ReadOutcome::Failed), AttemptStep::End(Ended::ReadFailed));
    assert_eq!(attempt.read(&probe(), &ReadOutcome::Nothing), AttemptStep::ReadOn);
}

#[test]
fn previews_are_short_and_printable() {
    let shown = preview(b"no\x00\\\xff");
    assert!(shown.contains(r"no\x00"), "{shown}");
    assert!(shown.contains(r"\xff"), "{shown}");
    assert!(preview(&[b'a'; 100]).len() < 100);
}

#[test]
fn probing_pauses_longer_and_longer() {
    let mut probing = Probing::new();
    let mut pauses = Vec::new();
    for _ in 0..8 {
        match probing.attempted(Err("no".to_string()), false) {
            ProbeStep::Pause(pause) => pauses.push(pause),
            other => panic!("{other:?}"),
        }
    }
    assert_eq!(pauses, [2, 4, 8, 16, 32, 64, 100, 100]);
    match probing.attempted(Err("still no".to_string()), true) {
        ProbeStep::Done(Err(summary)) => assert_eq!(summary, "still no"),
        other => panic!("{other:?}"),
    }
    assert!(matches!(probing.attempted(Ok(()), false), ProbeStep::Done(Ok(()))));
}

// The control channel.

/// Receives one frame from a channel that hands out at most `chunk` bytes,
/// with the frame's descriptors beside the first of them.
fn receive(
    channel: &mut Vec<u8>,
    chunk: usize,
    descriptors: &[i32],
) -> (Vec<u8>, Vec<u8>, Vec<i32>) {
    let mut reader = FrameReader::new();
    let mut beside = descriptors.to_vec();
    while reader.wanted() > 0 {
        let take = reader.wanted().min(chunk);
        let bytes: Vec<u8> = channel.drain(..take).collect();
        reader.feed(&bytes, std::mem::take(&mut beside)).expect("a frame");
    }
    reader.take()
}

#[test]
fn frames_round_trip_with_payload_and_descriptors() {
    let mut channel = encode_frame(b"\"initialize\"", b"recipe bytes").expect("encode");
    channel.extend(encode_frame(b"\"stop\"", b"").expect("encode"));
    let (message, payload, descriptors) = receive(&mut channel, 5, &[7, 9]);
    assert_eq!(message, b"\"initialize\"");
    assert_eq!(payload, b"recipe bytes");
    assert_eq!(descriptors, [7, 9]);
    let (message, payload, descriptors) = receive(&mut channel, 5, &[]);
    assert_eq!(message, b"\"stop\"");
    assert!(payload.is_empty());
    assert!(descriptors.is_empty());
    assert!(channel.is_empty());
    // The end of the channel, with nothing left behind.
    let mut reader = FrameReader::new();
    assert_eq!(reader.closed(), Ok(()));
    // Descriptors without a frame are the rest of one.
    reader.feed(b"", vec![7]).expect("descriptors");
    assert_eq!(reader.closed(), Err(FrameError::Closed));
}

#[test]
fn a_channel_that_ends_inside_a_frame_is_an_error() {
    let frame = encode_frame(b"1", b"").expect("encode");
    assert_eq!(frame, [1, 0, 0, 0, 0, 0, 0, 0, b'1']);
    let mut reader: FrameReader<i32> = FrameReader::new();
    assert_eq!(reader.wanted(), 8);
    reader.feed(&frame[..8], Vec::new()).expect("a header");
    assert_eq!(reader.wanted(), 1);
    assert_eq!(reader.closed(), Err(FrameError::Closed));
    // A descriptor that comes after the header is nobody's.
    reader.feed(&frame[8..], vec![3]).expect("the rest");
    assert_eq!(reader.take(), (b"1".to_vec(), Vec::new(), Vec::new()));
}

#[test]
fn a_frame_announces_no_more_than_it_may_hold() {
    let mut reader: FrameReader<i32> = FrameReader::new();
    let mut header = ((MAX_JSON_LEN + 1) as u32).to_le_bytes().to_vec();
    header.extend([0; 4]);
    assert_eq!(
        reader.feed(&header, Vec::new()),
        Err(FrameError::TooLarge { json_len: MAX_JSON_LEN + 1, payload_len: 0 })
    );
    for error in [
        FrameError::MessageTooLong,
        FrameError::PayloadTooLong,
        FrameError::Closed,
        FrameError::TooLarge { json_len: 1, payload_len: 2 },
    ] {
        assert!(!error.text().is_empty());
    }
}

// The process title.

#[test]
fn the_buffer_is_labelled_and_full_length() {
    assert_eq!(BUFFER_ARG.len(), BUFFER_LEN);
    let (flag, value) = BUFFER_ARG.split_once('=').expect("flag=value");
    assert_eq!(flag, BUFFER_FLAG);
    assert!(value.starts_with("_SERVICECACHE_NAME_BUFFER___"));
    assert!(value.bytes().all(|byte| byte == b'_' || byte.is_ascii_uppercase()));
}

#[test]
fn titles_read_as_role_service_recipe_and_state() {
    let endpoint = || State::Serving("127.0.0.1:46051".to_string());
    let mut digest = [0xff; 32];
    digest[..4].copy_from_slice(&[0xfa, 0x9b, 0x30, 0xbc]);
    let title = |recipe, state: State| render("exampledb", "1.2.3", recipe, &state);
    assert_eq!(
        title(None, State::Starting),
        "servicecache instance exampledb@1.2.3 starting"
    );
    assert_eq!(
        title(None, endpoint()),
        "servicecache instance exampledb@1.2.3 listening on 127.0.0.1:46051"
    );
    assert_eq!(
        title(Some(&digest), endpoint()),
        "servicecache instance exampledb@1.2.3 recipe fa9b30bc listening on 127.0.0.1:46051"
    );
    assert_eq!(
        title(Some(&digest), State::Frozen),
        "servicecache template exampledb@1.2.3 recipe fa9b30bc"
    );
}

#[test]
fn a_title_is_written_over_the_arguments() {
    assert_eq!(overwrite("abc", 6), b"abc\0\0\0");
    assert_eq!(overwrite("abc", 3), b"ab\0");
    assert_eq!(overwrite("abc", 0), b"");
}

#[test]
fn the_argument_region_is_read_from_the_stat_file() {
    let stat = |start: &str, end: &str| {
        let mut fields: Vec<String> = (3..48).map(|field| field.to_string()).collect();
        fields.push(start.to_string());
        fields.push(end.to_string());
        fields.push("0".to_string());
        format!("42 (a) name (x)) {}\n", fields.join(" "))
    };
    assert_eq!(region(&stat("4096", "4196")), Ok((4096, 100)));
    assert_eq!(
        region(&stat("0", "4196")),
        Err(RegionError::NoRegion { start: 0, end: 4196 })
    );
    assert_eq!(
        region(&stat("4096", "4096")),
        Err(RegionError::NoRegion { start: 4096, end: 4096 })
    );
    assert_eq!(region(&stat("x", "4096")), Err(RegionError::BadNumber));
    assert_eq!(region("42 name"), Err(RegionError::Unparseable));
    assert_eq!(region("42 (name) 3 4"), Err(RegionError::NoStart));
}

// The guest's waits.

fn words(guest: bool, interrupt: bool, gate: bool, expired: bool) -> Words {
    Words { guest_changed: guest, interrupt_changed: interrupt, gate_changed: gate, expired }
}

#[test]
fn a_wait_tells_its_three_words_apart() {
    let quiet = words(false, false, false, false);
    for (index, expected) in [
        (0, HostFutexResult::Woken),
        (1, HostFutexResult::Interrupted),
        (2, HostFutexResult::Interrupted),
    ] {
        let mut support = Support::Supported;
        let (step, said) = support.wait(WaitResult::Woken(index), quiet);
        assert_eq!(step, WaitStep::Return(expected));
        assert!(!said);
    }
    let mut support = Support::Supported;
    assert_eq!(
        support.wait(WaitResult::TimedOut, quiet).0,
        WaitStep::Return(HostFutexResult::TimedOut)
    );
    assert_eq!(
        support.wait(WaitResult::Changed, words(true, true, false, true)).0,
        WaitStep::Return(HostFutexResult::Interrupted)
    );
    assert_eq!(
        support.wait(WaitResult::Changed, words(true, false, false, true)).0,
        WaitStep::Return(HostFutexResult::Woken)
    );
    assert_eq!(support.wait(WaitResult::Changed, quiet).0, WaitStep::Again);
    assert_eq!(support.wait(WaitResult::Signal, quiet).0, WaitStep::Again);
    assert_eq!(
        support.wait(WaitResult::Signal, words(false, false, true, false)).0,
        WaitStep::Return(HostFutexResult::Interrupted)
    );
    assert!(support.is_supported());
}

#[test]
fn an_unknown_error_turns_the_backend_off_once() {
    let quiet = words(false, false, false, false);
    let mut support = Support::Supported;
    let (step, said) = support.wait(WaitResult::Failed(22), quiet);
    assert_eq!(step, WaitStep::Return(HostFutexResult::Unavailable));
    assert!(said);
    assert_eq!(support, Support::Disabled);
    let (_, said) = support.wait(WaitResult::Woken(3), quiet);
    assert!(!said);
    // A waiter parked before may still need a wake.
    assert_eq!(support.wake(1), Some(1));
    assert_eq!(support.wake(0), None);
    assert_eq!(support.wake(u32::MAX), Some(i32::MAX));
    assert_eq!(Support::Unavailable.wake(1), None);
}

#[test]
fn the_backend_is_used_where_the_probe_is_refused_for_its_value() {
    assert_eq!(Support::install(false, WaitResult::Changed), Support::Supported);
    assert_eq!(Support::install(true, WaitResult::Changed), Support::Unavailable);
    assert_eq!(Support::install(false, WaitResult::Failed(38)), Support::Unavailable);
    assert_eq!(woken(3), 3);
    assert_eq!(woken(-1), 0);
    let waiter = Waiter::new(4096, 7);
    assert_eq!((waiter.address, waiter.value, waiter.reserved), (4096, 7, 0));
}

#[test]
fn timeouts_are_absolute_and_do_not_wrap() {
    let now = Timespec { seconds: 5, nanoseconds: 900_000_000 };
    assert_eq!(
        absolute_timeout(now, 1, 200_000_000),
        Timespec { seconds: 7, nanoseconds: 100_000_000 }
    );
    assert_eq!(absolute_timeout(now, u64::MAX, 0).seconds, i64::MAX);
}

// The guest's network.

#[test]
fn the_passed_socket_is_given_once() {
    let mut net = HostNetworking::new(3306);
    assert_eq!(net.bind(3306), Bind::InUse);
    net.set_listener(7).expect("a listener");
    assert_eq!(net.bind(80), Bind::Unserved);
    assert_eq!(net.bind(3306), Bind::Passed(7));
    assert_eq!(net.bind(3306), Bind::InUse);
    // A socket that does not become the guest's is lost.
    assert_eq!(net.endpoint(), Err(NetError::NothingPassed));
    net.adopt(7);
    assert_eq!(net.endpoint(), Ok(7));
    assert_eq!(net.set_listener(8), Err(NetError::AlreadyBound));
    net.replace_listener(9).expect("a clone's listener");
    assert_eq!(net.endpoint(), Ok(9));
    assert_eq!(HostNetworking::new(1).endpoint(), Err(NetError::NothingPassed));
}

#[test]
fn a_freeze_ends_every_connection() {
    let mut net = HostNetworking::new(3306);
    net.set_listener(7).expect("a listener");
    net.bind(3306);
    net.adopt(7);
    net.track(11);
    net.track(12);
    net.track(11);
    net.untrack(12);
    net.track(13);
    // The listener first, then every connection once, in some order.
    let shut = net.shut_down_sockets();
    assert_eq!(shut[0], (7, Shutdown::Read));
    let mut fds: Vec<i32> = shut[1..].iter().map(|(fd, _)| *fd).collect();
    fds.sort_unstable();
    assert_eq!(fds, [11, 13]);
    assert!(shut.contains(&(11, Shutdown::Both)), "{shut:?}");
    assert!(!shut.iter().any(|(fd, _)| *fd == 12), "{shut:?}");
    assert_eq!(check_shutdown(11, ShutdownResult::Done), Ok(()));
    assert_eq!(check_shutdown(11, ShutdownResult::NotConnected), Ok(()));
    assert_eq!(check_shutdown(11, ShutdownResult::Failed), Err(NetError::Shutdown(11)));
    assert!(!NetError::Shutdown(11).text().is_empty());
    let mut passed = PassedBoundSocket { listener: Some(3) };
    assert_eq!(passed.listen(), Some(3));
    assert_eq!(passed.listen(), None);
}

#[test]
fn addresses_are_text() {
    assert_eq!(address(80).text(), "127.0.0.1:80");
    assert_eq!(Address { ip: "::1".to_string(), port: 80, v6: true }.text(), "[::1]:80");
    assert_eq!(socket_ttl(255), Some(255));
    assert_eq!(socket_ttl(256), None);
}

// Runs.

#[test]
fn a_run_is_named_by_its_module() {
    let module = p("/s/server.wasm");
    let run = GuestRun { module: &module, args: Vec::new(), stdin: b"", network: true };
    assert_eq!(run.program_name(), "server.wasm");
    let odd = UnixPath::new(b"/s/\xff".to_vec());
    let run = GuestRun { module: &odd, args: Vec::new(), stdin: b"", network: true };
    assert_eq!(run.program_name(), "module");
    assert_eq!(exit_status(RunStatus::Running), None);
    assert_eq!(exit_status(RunStatus::Exited(3)), Some(3));
    assert_eq!(exit_status(RunStatus::Failed(Some(4))), Some(4));
    assert_eq!(exit_status(RunStatus::Failed(None)), Some(128));
    let mut loaded = LoadedModules::new();
    assert_eq!(loaded.find(&module), None);
    loaded.insert(module.clone());
    assert_eq!(loaded.find(&module), Some(0));
}

#[test]
fn tasks_are_counted_and_generations_counted_up() {
    let mut tasks = HostTaskManager::new();
    tasks.task_started();
    tasks.task_started();
    tasks.task_finished();
    assert_eq!(tasks.shared_tasks_in_flight(), 1);
    let mut sleep = ForkAwareSleep { armed: None };
    assert!(sleep.poll(tasks.generation()));
    assert!(!sleep.poll(tasks.generation()));
    tasks.replace_runtime();
    assert_eq!(tasks.generation(), 1);
    // A timer of the template's runtime is armed anew in its clone.
    assert!(sleep.poll(tasks.generation()));
}

// The host.

fn sent(action: Action) -> Reply {
    match action {
        Action::Send(reply) => reply,
        other => panic!("{other:?}"),
    }
}

fn refused(action: Action) -> String {
    match sent(action) {
        Reply::Error { text } => text,
        other => panic!("{other:?}"),
    }
}

/// A host whose guest serves.
fn serving() -> Host {
    let mut host = Host::new(manifest(None));
    assert!(matches!(host.handle(Request::Start, 1, b""), Action::StartGuest));
    host.guest_started();
    assert!(matches!(host.start_step(false, Ok(address(0)), None, None), Action::Wait));
    match sent(host.start_step(true, Ok(address(4000)), None, None)) {
        Reply::Ready { endpoint } => assert_eq!(endpoint, "127.0.0.1:4000"),
        other => panic!("{other:?}"),
    }
    host
}

#[test]
fn a_host_is_prepared_started_initialized_and_frozen() {
    let mut host = Host::new(manifest(None));
    assert!(matches!(host.handle(Request::Prepare, 0, b""), Action::RunPrepare));
    assert_eq!(refused(host.handle(Request::Start, 1, b"")), "busy: Prepare is running");
    assert_eq!(
        sent(host.run_ended(0)),
        Reply::Exited { run: Run::Prepare, status: 0, pid: None }
    );
    assert_eq!(host.phase, Phase::Prepared);

    let mut host = serving();
    assert_eq!(
        host.title(),
        "servicecache instance exampledb@1.2.3 listening on 127.0.0.1:4000"
    );
    match host.handle(Request::Initialize, 0, b"abc") {
        Action::RunInitializer(args) => assert_eq!(args, ["--host=127.0.0.1", "4000/4000"]),
        other => panic!("{other:?}"),
    }
    assert_eq!(
        sent(host.run_ended(0)),
        Reply::Exited { run: Run::Initializer, status: 0, pid: None }
    );
    assert_eq!(
        host.title(),
        "servicecache instance exampledb@1.2.3 recipe ba7816bf listening on 127.0.0.1:4000"
    );
    assert!(matches!(host.handle(Request::Freeze, 0, b""), Action::Freeze));
    assert_eq!(sent(host.freeze_ended(Ok(3))), Reply::Frozen { coroutines: 3 });
    assert_eq!(host.title(), "servicecache template exampledb@1.2.3 recipe ba7816bf");
    assert!(host.compacting);
    host.compacted();
    assert!(!host.compacting);
}

#[test]
fn a_frozen_host_only_forks_and_stops() {
    let mut host = serving();
    host.handle(Request::Freeze, 0, b"");
    host.freeze_ended(Ok(1));
    for request in [Request::Prepare, Request::Start, Request::Initialize, Request::Freeze] {
        refused(host.handle(request, 1, b""));
    }
    assert!(refused(host.handle(Request::Fork, 1, b"")).starts_with("fork needs two"));
    assert!(matches!(host.handle(Request::Fork, 2, b""), Action::Fork));
    assert_eq!(
        sent(host.forked_parent(77, &address(4001))),
        Reply::Forked { pid: 77, endpoint: "127.0.0.1:4001".to_string() }
    );
    assert_eq!(host.phase, Phase::Frozen);
    // The clone serves where it was told to.
    host.handle(Request::Fork, 2, b"");
    assert_eq!(
        sent(host.forked_child(Ok(()), 78, address(4002))),
        Reply::Forked { pid: 78, endpoint: "127.0.0.1:4002".to_string() }
    );
    assert_eq!(host.phase, Phase::Running { ready: true });
    assert!(matches!(host.handle(Request::Stop, 0, b""), Action::Exit));
}

#[test]
fn a_failed_freeze_takes_the_host_with_it() {
    let mut host = serving();
    host.handle(Request::Freeze, 0, b"");
    match host.freeze_ended(Err("stuck".to_string())) {
        Action::SendAndExit(Reply::Error { text }) => assert_eq!(text, "stuck"),
        other => panic!("{other:?}"),
    }
}

#[test]
fn ready_waits_for_the_probe() {
    let mut host = Host::new(manifest(Some(probe())));
    host.handle(Request::Start, 1, b"");
    host.guest_started();
    assert!(matches!(host.start_step(true, Ok(address(4000)), None, None), Action::Probe));
    assert!(matches!(host.start_step(true, Ok(address(4000)), None, None), Action::Wait));
    let answered = host.start_step(true, Ok(address(4000)), Some(Ok(())), None);
    assert!(matches!(sent(answered), Reply::Ready { .. }));

    let mut host = Host::new(manifest(Some(probe())));
    host.handle(Request::Start, 1, b"");
    host.guest_started();
    host.start_step(true, Ok(address(4000)), None, None);
    let failed = host.start_step(true, Ok(address(4000)), Some(Err("no".to_string())), None);
    assert_eq!(refused(failed), "the guest did not answer its readiness probe: no");
}

#[test]
fn requests_out_of_turn_are_refused() {
    let mut host = Host::new(manifest(None));
    assert_eq!(
        refused(host.handle(Request::Freeze, 0, b"")),
        "freeze is only accepted while the guest is listening"
    );
    assert_eq!(
        refused(host.handle(Request::Start, 0, b"")),
        "start needs exactly one descriptor, the listening socket"
    );
    assert_eq!(
        refused(host.handle(Request::Fork, 2, b"")),
        "fork is only accepted on a frozen host"
    );
    assert_eq!(
        refused(host.handle(Request::Initialize, 0, b"")),
        "initialize is only accepted while the guest is listening"
    );
    let mut host = serving();
    assert_eq!(
        refused(host.handle(Request::Prepare, 0, b"")),
        "prepare is only accepted before anything has run"
    );
}

#[test]
fn a_guest_that_exits_is_reported() {
    let mut host = serving();
    let tick = host.tick(true, Ok(address(4000)), Some(9));
    assert_eq!(tick.replies, [Reply::Exited { run: Run::Guest, status: 9, pid: None }]);
    assert!(tick.end);
    let mut host = serving();
    let tick = host.tick(true, Ok(address(4000)), None);
    assert!(tick.replies.is_empty());
    assert!(!tick.end);
    assert_eq!(tick.error, None);
    // A guest that listens where nobody can tell ends its host with the error.
    let mut host = Host::new(manifest(None));
    host.guest_started();
    let tick = host.tick(true, Err("no address".to_string()), None);
    assert!(tick.replies.is_empty());
    assert!(tick.end);
    assert_eq!(tick.error.as_deref(), Some("no address"));
    assert_eq!(
        child_exited(5, 1),
        Reply::Exited { run: Run::Child, status: 1, pid: Some(5) }
    );
    assert_eq!(
        child_killed(5, 9),
        Reply::Exited { run: Run::Child, status: 137, pid: Some(5) }
    );
}

#[test]
fn events_are_read_from_their_bytes() {
    let events = read_events(&[1, 2, 1]).expect("known bytes");
    assert!(events.listening && events.run_ended);
    let events = read_events(&[]).expect("nothing");
    assert!(!events.listening && !events.run_ended);
    assert_eq!(read_events(&[1, 9]).expect_err("an unknown byte"), 9);
}
