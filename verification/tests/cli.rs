use servicecache::cli::{
    after_failed_renewal, after_line, check_failure, checked_line, find_service, hold_result,
    hold_step, is_standard_input, print_services, request_banner, request_body, run_banner,
    service_dirs, socket_path, split_service, verbosity, CloneRun, CloneStep, Forking, HoldEnd, HoldStep,
    Lines, RunAction, RunEvent, RunStage, ServiceRun, LOCAL_SERVICES,
};
use servicecache::digest::digest_hex;
use servicecache::discovery::{ContentDigest, ServiceIndex};
use servicecache::host::net::Address;
use servicecache::host::protocol::{Reply, Run};
use servicecache::manifest::{Guest, Initializer, Manifest, Prepare, Service};
use servicecache::path::UnixPath;
use servicecache::serve::api::{Endpoint, Instance, InstanceState};

fn p(s: &str) -> UnixPath {
    UnixPath::from_text(s)
}

fn address(port: u16) -> Address {
    Address { ip: "127.0.0.1".to_string(), port, v6: false }
}

fn manifest(name: &str, version: &str, prepare: bool, initializer: bool) -> Manifest {
    Manifest {
        service: Service {
            name: name.to_string(),
            version: version.to_string(),
            extensions: Vec::new(),
        },
        prepare: if prepare {
            Some(Prepare { fs: Vec::new(), module: None, args: Vec::new(), stdin_file: None })
        } else {
            None
        },
        guest: Guest {
            module: p("/s/server.wasm"),
            args: Vec::new(),
            listen_port: 3306,
            ready: None,
        },
        initializer: if initializer {
            Some(Initializer { module: p("/s/client.wasm"), args: Vec::new() })
        } else {
            None
        },
        directory: p(&format!("/services/{name}-{version}")),
    }
}

#[test]
fn flags_replace_environment() {
    let directories =
        service_dirs(vec![p("flag-a"), p("flag-b")], Some(&p("env-a:env-b")), None);
    assert_eq!(directories, [p("flag-a"), p("flag-b")]);
}

#[test]
fn socket_flag_replaces_environment() {
    let temp = p("/tmp");
    assert_eq!(
        socket_path(Some(p("flag.sock")), Some(&p("env.sock")), None, &temp, 1000),
        p("flag.sock")
    );
    assert_eq!(socket_path(None, Some(&p("env.sock")), None, &temp, 1000), p("env.sock"));
    // Without either, some per-user default; its name is stable.
    assert_eq!(
        socket_path(None, None, None, &temp, 1000).file_name().as_deref(),
        Some(b"serve.sock".as_slice())
    );
}

#[test]
fn the_socket_stands_in_the_runtime_directory_or_a_temporary_one() {
    let temp = p("/tmp");
    let runtime = p("/run/user/1000");
    assert_eq!(
        socket_path(None, Some(&p("")), Some(&runtime), &temp, 1000),
        p("/run/user/1000/servicecache/serve.sock")
    );
    assert_eq!(
        socket_path(None, None, Some(&p("")), &temp, 1000),
        p("/tmp/servicecache-1000/serve.sock")
    );
}

#[test]
fn environment_replaces_defaults_and_splits_paths() {
    let directories = service_dirs(Vec::new(), Some(&p("env-a:env-b")), Some(&p("/home/user")));
    assert_eq!(directories, [p("env-a"), p("env-b")]);
    assert!(directories.iter().all(|path| path != &p(LOCAL_SERVICES)));
}

#[test]
fn empty_entries_of_a_search_path_are_dropped() {
    assert_eq!(service_dirs(Vec::new(), Some(&p(":a::b:")), None), [p("a"), p("b")]);
    assert!(service_dirs(Vec::new(), Some(&p("")), None).is_empty());
    assert!(service_dirs(Vec::new(), Some(&p("::")), None).is_empty());
}

#[test]
fn services_are_searched_below_the_home_directory_first() {
    assert_eq!(
        service_dirs(Vec::new(), None, Some(&p("/home/user"))),
        [
            p("/home/user/.local/share/servicecache/services"),
            p("/usr/local/share/servicecache/services"),
            p("/usr/share/servicecache/services")
        ]
    );
    assert_eq!(service_dirs(Vec::new(), None, None).len(), 2);
}

#[test]
fn serve_logs_its_requests_by_default() {
    assert_eq!(verbosity(true, 0, false, false), 1);
    assert_eq!(verbosity(true, 0, true, false), 0);
    assert_eq!(verbosity(true, 0, false, true), 0);
    assert_eq!(verbosity(true, 3, false, false), 3);
    assert_eq!(verbosity(false, 0, false, false), 0);
}

#[test]
fn a_service_is_named_with_or_without_a_version() {
    assert_eq!(split_service("db"), ("db".to_string(), None));
    assert_eq!(split_service("db@1"), ("db".to_string(), Some("1".to_string())));
    assert_eq!(split_service("db@1@2"), ("db".to_string(), Some("1@2".to_string())));
    assert_eq!(split_service("@"), (String::new(), Some(String::new())));
}

#[test]
fn an_argument_finds_its_service_or_says_why_not() {
    let mut services = ServiceIndex::new();
    services.insert(manifest("db", "2", false, false), Vec::new());
    services.insert(manifest("db", "1", false, false), Vec::new());
    services.insert(manifest("kv", "1", false, false), Vec::new());
    assert_eq!(find_service(&services, "kv").expect("kv").service.name, "kv");
    assert_eq!(find_service(&services, "db@2").expect("db").service.version, "2");
    assert_eq!(
        find_service(&services, "db").expect_err("ambiguous"),
        "db is installed in several versions (1, 2); name one as db@<version>"
    );
    assert_eq!(
        find_service(&services, "db@3").expect_err("unknown"),
        "no installed service matches db@3"
    );
}

#[test]
fn a_dash_is_standard_input() {
    assert!(is_standard_input(&p("-")));
    assert!(!is_standard_input(&p("./-")));
    assert!(!is_standard_input(&p("")));
}

#[test]
fn a_listing_shows_packages_files_and_shadows() {
    let file = |path: &str, content: &[u8]| ContentDigest {
        path: p(path),
        sha256: digest_hex(content),
    };
    let mut services = ServiceIndex::new();
    services.insert(manifest("db", "1", false, false), vec![file("a", b"abc")]);
    let mut other = manifest("db", "1", false, false);
    other.directory = p("/elsewhere/db");
    services.insert(other, vec![file("b", b"")]);
    assert_eq!(
        print_services(&services),
        "db 1 /services/db-1\n  \
         ba7816bf8f01cfea414140de5dae2223b00361a396177a9cb410ff61f20015ad  a\n  \
         shadowed /elsewhere/db\n    \
         e3b0c44298fc1c149afbf4c8996fb92427ae41e4649b934ca495991b7852b855  b\n"
    );
    assert_eq!(print_services(&ServiceIndex::new()), "");
    let checked = manifest("db", "1", false, false);
    assert_eq!(checked_line(&checked, &p("/x")), "checked db 1 /x");
    assert_eq!(check_failure(&checked, &p("/x")), "service db 1 in /x failed its module check");
}

#[test]
fn a_run_prepares_starts_and_initializes() {
    let mut run = ServiceRun::new(&manifest("db", "1", true, true), true);
    assert!(matches!(run.step(RunEvent::Spawned), RunAction::Prepare));
    assert!(matches!(run.step(RunEvent::Prepared(0)), RunAction::Start));
    assert!(matches!(run.step(RunEvent::Started), RunAction::Initialize));
    assert!(matches!(
        run.step(RunEvent::Initialized(0)),
        RunAction::Announce { uninitialized: false }
    ));
    assert!(matches!(run.step(RunEvent::Exited(0)), RunAction::Finish));
    assert_eq!(run.stage, RunStage::Ended);
}

fn failure(action: RunAction) -> String {
    match action {
        RunAction::Fail(error) => error,
        other => panic!("{other:?}"),
    }
}

#[test]
fn a_run_says_what_failed() {
    let mut run = ServiceRun::new(&manifest("db", "1", true, true), true);
    run.step(RunEvent::Spawned);
    assert_eq!(failure(run.step(RunEvent::Prepared(3))), "the prepare step exited with status 3");

    let mut run = ServiceRun::new(&manifest("db", "1", false, true), true);
    assert!(matches!(run.step(RunEvent::Spawned), RunAction::Start));
    run.step(RunEvent::Started);
    assert_eq!(
        failure(run.step(RunEvent::Initialized(-1))),
        "the initializer exited with status -1"
    );

    // A recipe is never dropped in silence.
    let mut run = ServiceRun::new(&manifest("db", "1", false, false), true);
    run.step(RunEvent::Spawned);
    assert_eq!(
        failure(run.step(RunEvent::Started)),
        "db has no initializer to give the recipe to"
    );

    let mut run = ServiceRun::new(&manifest("db", "1", false, true), false);
    run.step(RunEvent::Spawned);
    assert!(matches!(run.step(RunEvent::Started), RunAction::Announce { uninitialized: true }));
    assert_eq!(failure(run.step(RunEvent::Exited(2))), "db exited with status 2");
    // Nothing happens out of turn.
    assert!(matches!(run.step(RunEvent::Started), RunAction::Wait));
}

#[test]
fn the_banner_says_where_and_how() {
    assert_eq!(
        run_banner("db", &address(40000), 3306, 7, None),
        "\n==> db is listening on host port 40000 (127.0.0.1:40000; guest port 3306). \
         Ctrl-C to stop.\n\n"
    );
    assert_eq!(
        run_banner("db", &address(40000), 3306, 7, Some(1)),
        "\n==> db is listening on host port 40000 (127.0.0.1:40000; guest port 3306). \
         Ctrl-C to stop.\n==> Enter here, or `kill -USR1 7`, freezes it and forks 1 clone.\n\n"
    );
    assert!(run_banner("db", &address(1), 2, 7, Some(3)).contains("forks 3 clones."));
    let mut lines = Lines::new();
    lines.line("a");
    lines.line("");
    assert_eq!(lines.0, "a\n\n");
}

fn exited(run: Run, status: i32, pid: Option<u32>) -> Reply {
    Reply::Exited { run, status, pid }
}

#[test]
fn a_run_with_clones_ends_with_the_last_of_them() {
    let mut run = CloneRun::new(2, true);
    assert!(!run.frozen);
    assert_eq!(run.asked(true, None), Some(Forking { freeze: true, clones: 2 }));
    assert_eq!(run.froze(1, "1.0ms"), "==> frozen: 1 guest thread in 1.0ms");
    assert!(run.frozen);
    assert_eq!(
        run.forked(11, &address(4001), "2.5ms"),
        "==> clone 11 is listening on host port 4001 (127.0.0.1:4001), forked in 2.5ms"
    );
    run.forked(12, &address(4002), "2.5ms");
    match run.event(&exited(Run::Child, 1, Some(11))) {
        CloneStep::Continue(lines) => {
            assert_eq!(lines.0, "==> clone 11 exited with status 1\n");
        }
        other => panic!("{other:?}"),
    }
    match run.event(&exited(Run::Child, 0, Some(12))) {
        CloneStep::End(lines, status) => {
            assert_eq!(
                lines.0,
                "==> clone 12 exited with status 0\n==> every clone has exited\n"
            );
            // One of the clones failed, so the run does.
            assert_eq!(status, 1);
        }
        other => panic!("{other:?}"),
    }
}

#[test]
fn a_run_with_clones_ends_with_its_guest() {
    let mut run = CloneRun::new(1, false);
    assert!(matches!(
        run.event(&exited(Run::Child, 0, None)),
        CloneStep::Unexpected(_)
    ));
    match run.event(&Reply::Frozen { coroutines: 1 }) {
        CloneStep::Unexpected(error) => assert_eq!(
            error,
            "unexpected event from the template: Frozen { coroutines: 1 }"
        ),
        other => panic!("{other:?}"),
    }
    match run.event(&exited(Run::Guest, 5, None)) {
        CloneStep::End(lines, status) => {
            assert_eq!(lines.0, "");
            assert_eq!(status, 5);
        }
        other => panic!("{other:?}"),
    }
}

#[test]
fn a_line_or_a_signal_asks_for_clones() {
    let mut run = CloneRun::new(1, true);
    assert_eq!(run.asked(true, None), Some(Forking { freeze: true, clones: 1 }));
    run.froze(1, "1.0ms");
    run.forked(11, &address(4001), "1.0ms");
    assert_eq!(run.due, 0);
    // The template is frozen once.
    assert_eq!(run.asked(false, Some(1)), Some(Forking { freeze: false, clones: 1 }));
    run.forked(12, &address(4002), "1.0ms");
    assert_eq!(run.clones, [11, 12]);
    assert_eq!(run.asked(false, None), None);
    assert!(run.terminal);
    // End of input: stop watching it.
    assert_eq!(run.asked(false, Some(0)), None);
    assert!(!run.terminal);
    assert!(run.asked(true, Some(0)).is_some());
}

fn instance(state: InstanceState, exit_status: Option<i32>) -> Instance {
    Instance {
        id: "00ff".to_string(),
        service: "db".to_string(),
        version: "1".to_string(),
        endpoint: Endpoint { host: "127.0.0.1".to_string(), port: 4000 },
        state,
        exit_status,
        expires_in_seconds: 30,
    }
}

#[test]
fn a_request_asks_for_a_short_lease() {
    let body = request_body("db@1", Some(b"SELECT 1;\n"));
    assert_eq!(body.service, "db");
    assert_eq!(body.version.as_deref(), Some("1"));
    assert_eq!(body.recipe.as_deref(), Some("U0VMRUNUIDE7Cg=="));
    assert!(body.recipe_files.is_empty());
    assert_eq!(body.ttl_seconds, Some(30));
    let body = request_body("db", None);
    assert_eq!(body.version, None);
    assert_eq!(body.recipe, None);
    assert_eq!(
        request_banner(&instance(InstanceState::Running, None), "127.0.0.1:4000"),
        "\n==> instance 00ff of db 1 is listening on 127.0.0.1:4000.\n\
         ==> Held and renewed until stdin closes or Ctrl-C, then destroyed.\n\n"
    );
}

#[test]
fn a_hold_is_renewed_until_it_ends() {
    assert_eq!(hold_step(true, true, true), HoldStep::Renew);
    assert_eq!(hold_step(false, true, true), HoldStep::TakeSignal);
    assert_eq!(hold_step(false, false, true), HoldStep::ReadLine);
    assert_eq!(hold_step(false, false, false), HoldStep::Wait);
    assert_eq!(after_line(0), Some(HoldEnd::Released));
    assert_eq!(after_line(3), None);
    let gone = instance(InstanceState::Exited, Some(4));
    let running = instance(InstanceState::Running, None);
    assert_eq!(after_failed_renewal(true, Some(&gone)), Some(HoldEnd::Exited(Some(4))));
    assert_eq!(after_failed_renewal(false, Some(&gone)), None);
    assert_eq!(after_failed_renewal(true, Some(&running)), None);
    assert_eq!(after_failed_renewal(true, None), None);
    assert_eq!(hold_result("db", HoldEnd::Released), Ok(()));
    assert_eq!(
        hold_result("db", HoldEnd::Exited(Some(4))),
        Err("the db instance exited with status 4".to_string())
    );
    assert_eq!(
        hold_result("db", HoldEnd::Exited(None)),
        Err("the db instance exited with status unknown".to_string())
    );
}
