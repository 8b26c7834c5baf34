use servicecache::host::protocol::{Reply, Run};
use servicecache::host::title::BUFFER_ARG;
use servicecache::manager::{host_args, ExitStep, HostProcess, ReplyStep};
use servicecache::path::UnixPath;

fn child_exit() -> Reply {
    Reply::Exited { run: Run::Child, status: 0, pid: Some(9) }
}

#[test]
fn events_are_kept_while_a_reply_is_awaited() {
    let mut host = HostProcess::spawned(5);
    assert!(matches!(host.reply(Some(child_exit())), ReplyStep::Again));
    match host.reply(Some(Reply::Frozen { coroutines: 2 })) {
        ReplyStep::Reply(reply) => assert_eq!(host.freeze(reply).expect("frozen"), 2),
        other => panic!("{other:?}"),
    }
    assert_eq!(host.events(), &vec![child_exit()]);
    assert_eq!(host.take_events(), vec![child_exit()]);
    assert!(host.take_events().is_empty());
}

fn failure(step: ReplyStep) -> String {
    match step {
        ReplyStep::Failed(error) => error.text(),
        other => panic!("{other:?}"),
    }
}

#[test]
fn a_reply_may_be_an_error() {
    let mut host = HostProcess::spawned(5);
    assert_eq!(failure(host.reply(None)), "host 5 closed its control channel");
    assert_eq!(
        failure(host.reply(Some(Reply::Error { text: "busy".to_string() }))),
        "host 5 refused: busy"
    );
    assert_eq!(
        failure(host.reply(Some(Reply::Exited { run: Run::Guest, status: -1, pid: None }))),
        "the guest in host 5 exited with status -1"
    );
    assert_eq!(
        host.endpoint().expect_err("nowhere").text(),
        "host 5 has no endpoint yet"
    );
}

#[test]
fn replies_go_with_what_was_asked() {
    let mut host = HostProcess::spawned(5);
    assert_eq!(
        host.prepare(Reply::Exited { run: Run::Prepare, status: 3, pid: None }).expect("prepared"),
        3
    );
    assert_eq!(
        host.initialize(Reply::Exited { run: Run::Initializer, status: 0, pid: None })
            .expect("initialized"),
        0
    );
    assert_eq!(
        host.prepare(Reply::Frozen { coroutines: 1 }).expect_err("another").text(),
        "unexpected reply to prepare: Frozen { coroutines: 1 }"
    );
    assert_eq!(
        host.start(Reply::Ready { endpoint: "127.0.0.1:1".to_string() }, Ok(())).expect("ready"),
        "127.0.0.1:1"
    );
    assert_eq!(host.endpoint().expect("an endpoint"), "127.0.0.1:1");
    let clone = host
        .fork(Reply::Forked { pid: 8, endpoint: "127.0.0.1:2".to_string() }, Ok(()))
        .expect("forked");
    assert_eq!(clone.pid(), 8);
    assert!(!clone.spawned);
    assert!(clone
        .announced(Reply::Forked { pid: 8, endpoint: "127.0.0.1:2".to_string() })
        .is_ok());
    assert_eq!(
        clone.announced(Reply::Frozen { coroutines: 1 }).expect_err("another").text(),
        "unexpected announcement from clone 8: Frozen { coroutines: 1 }"
    );
}

#[test]
fn the_exit_of_the_guest_is_awaited() {
    let mut host = HostProcess::spawned(5);
    assert!(matches!(host.wait_exit(Some(child_exit())), ExitStep::Again));
    let exited = Reply::Exited { run: Run::Guest, status: 4, pid: None };
    assert!(matches!(host.wait_exit(Some(exited)), ExitStep::Exited(4)));
    match host.wait_exit(Some(Reply::Frozen { coroutines: 1 })) {
        ExitStep::Failed(error) => assert_eq!(
            error.text(),
            "unexpected reply from host 5: Frozen { coroutines: 1 }"
        ),
        other => panic!("{other:?}"),
    }
    assert_eq!(host.read_event(Some(child_exit())).expect("an event"), child_exit());
}

#[test]
fn a_host_is_told_where_everything_is() {
    let manifest = UnixPath::from_text("/s/service.toml");
    let cache = UnixPath::from_text("/cache");
    let args = host_args(&manifest, &cache, Some("info"));
    let shown: Vec<String> =
        args.into_iter().map(|arg| String::from_utf8(arg).expect("text")).collect();
    assert_eq!(
        shown,
        [
            "host",
            "--manifest",
            "/s/service.toml",
            "--control-fd",
            "3",
            "--cache-dir",
            "/cache",
            BUFFER_ARG,
            "--log",
            "info"
        ]
    );
    assert_eq!(host_args(&manifest, &cache, None).len(), 8);
}

#[test]
fn replies_are_spelled_out_in_errors() {
    for reply in [
        Reply::Ready { endpoint: "127.0.0.1:1".to_string() },
        Reply::Exited { run: Run::Guest, status: -1, pid: None },
        child_exit(),
        Reply::Frozen { coroutines: 3 },
        Reply::Forked { pid: 8, endpoint: "a\"b\n".to_string() },
        Reply::Error { text: "it's\t\u{7f}".to_string() },
    ] {
        assert_eq!(reply.spelled(), format!("{reply:?}"));
    }
}

#[test]
fn an_endpoint_that_is_no_address_is_not_taken() {
    let mut host = HostProcess::spawned(7);
    let wrong = || Err("invalid socket address syntax".to_string());
    let said = "bad endpoint from the host: nowhere: invalid socket address syntax";
    let ready = Reply::Ready { endpoint: "nowhere".to_string() };
    assert_eq!(host.start(ready, wrong()).expect_err("no address").text(), said);
    assert!(host.endpoint().is_err());
    let forked = Reply::Forked { pid: 8, endpoint: "nowhere".to_string() };
    assert_eq!(host.fork(forked, wrong()).expect_err("no address").text(), said);
    // What is no reply to the request is told first.
    assert_eq!(
        host.start(Reply::Frozen { coroutines: 1 }, wrong()).expect_err("another").text(),
        "unexpected reply to start: Frozen { coroutines: 1 }"
    );
}
