use servicecache::discovery::ServiceIndex;
use servicecache::host::net::Address;
use servicecache::host::protocol::{Reply, Run};
use servicecache::manifest::{Guest, Initializer, Manifest, Service};
use servicecache::path::UnixPath;
use servicecache::serve::api::{
    decode_recipe, encode_recipe, recipe_of, CreateInstance, InstanceState, Problem,
    RenewInstance,
};
use servicecache::serve::client::{refusal, ApiError, Call, Method, Refusal};
use servicecache::serve::instances::{Entry, GuestState, Registry, WatchStep, NANOS};
use servicecache::serve::recipes::{RootFacts, Roots};
use servicecache::serve::{
    after_failed_fork, claim_socket, create_instance, delete_instance, get_instance,
    list_instances, list_services, new_id, plan_instance, plan_with, ready_line, renew_instance,
    serving_line, ttl_duration, Claim, RecipeSource, Retry, SocketFacts, DEFAULT_TTL,
    MAX_TTL_SECONDS,
};
use std::time::Duration;

fn manifest(name: &str, version: &str, initializer: bool) -> Manifest {
    Manifest {
        service: Service {
            name: name.to_string(),
            version: version.to_string(),
            extensions: Vec::new(),
        },
        prepare: None,
        guest: Guest {
            module: UnixPath::from_text("/s/server.wasm"),
            args: Vec::new(),
            listen_port: 3306,
            ready: None,
        },
        initializer: if initializer {
            Some(Initializer { module: UnixPath::from_text("/s/client.wasm"), args: Vec::new() })
        } else {
            None
        },
        directory: UnixPath::from_text("/s"),
    }
}

fn services() -> ServiceIndex {
    let mut services = ServiceIndex::new();
    services.insert(manifest("db", "1", true), Vec::new());
    services.insert(manifest("db", "2", true), Vec::new());
    services.insert(manifest("kv", "1", false), Vec::new());
    services
}

fn request(service: &str) -> CreateInstance {
    CreateInstance {
        service: service.to_string(),
        version: None,
        recipe: None,
        recipe_files: Vec::new(),
        ttl_seconds: None,
    }
}

fn no_roots() -> Roots {
    Roots(Vec::new())
}

fn some_roots() -> Roots {
    Roots::new(&vec![RootFacts {
        dir: UnixPath::from_text("/recipes"),
        canonical: Ok(UnixPath::from_text("/recipes")),
        is_dir: true,
    }])
    .expect("roots")
}

fn address(port: u16) -> Address {
    Address { ip: "127.0.0.1".to_string(), port, v6: false }
}

#[test]
fn recipes_round_trip() {
    let bytes = b"SELECT 1;\n\xff";
    let decoded = decode_recipe(&encode_recipe(bytes)).expect("decode");
    assert_eq!(decoded, bytes);
    assert!(decode_recipe("not base64!").is_err());
}

#[test]
fn recipes_are_standard_base64() {
    assert_eq!(encode_recipe(b"\xfb\xff"), "+/8=");
    assert_eq!(decode_recipe("+/8=").expect("decode"), b"\xfb\xff");
    let problem = decode_recipe("!").expect_err("not base64");
    assert!(problem.is("invalid-recipe"));
    assert_eq!(problem.status, 400);
    assert_eq!(recipe_of(Ok(vec![1])), Ok(vec![1]));
    let problem = recipe_of(Err("why".to_string())).expect_err("refused");
    assert_eq!(problem.detail.as_deref(), Some("why"));
}

#[test]
fn an_encoding_is_read_back_and_nothing_else_is_read() {
    for (bytes, text) in [
        ("", ""),
        ("f", "Zg=="),
        ("fo", "Zm8="),
        ("foo", "Zm9v"),
        ("foob", "Zm9vYg=="),
        ("fooba", "Zm9vYmE="),
        ("foobar", "Zm9vYmFy"),
    ] {
        assert_eq!(encode_recipe(bytes.as_bytes()), text);
        assert_eq!(decode_recipe(text).expect("decode"), bytes.as_bytes());
    }
    assert_eq!(encode_recipe(b"\xfb\xff\xbf"), "+/+/");
    // Padding left out, too much of it, bits behind the last byte, a symbol
    // of another alphabet, and a line's end.
    for text in ["Zg", "Zg=", "Zm9v====", "Zh==", "-_8=", "Zm9v\n", "é==="] {
        assert!(decode_recipe(text).is_err(), "{text}");
    }
    let problem = decode_recipe("Zg=").expect_err("not base64");
    assert_eq!(problem.detail.as_deref(), Some("Invalid padding"));
}

#[test]
fn problems_have_stable_types() {
    let problem = Problem::unknown_service("example", None);
    assert_eq!(problem.kind, "urn:servicecache:unknown-service");
    assert!(problem.is("unknown-service"));
    assert!(!problem.is("unknown-instance"));
    assert_eq!(problem.status, 404);
}

#[test]
fn problems_say_what_went_wrong() {
    let said = |problem: Problem, status: u16, slug: &str, detail: Option<&str>| {
        assert_eq!(problem.status, status, "{problem:?}");
        assert!(problem.is(slug), "{problem:?}");
        assert_eq!(problem.detail.as_deref(), detail);
    };
    said(
        Problem::unknown_service("db", Some("9")),
        404,
        "unknown-service",
        Some("no installed service matches db@9"),
    );
    said(
        Problem::ambiguous_version("db", &vec!["1".to_string(), "2".to_string()]),
        409,
        "ambiguous-version",
        Some("db is installed in several versions (1, 2); name one"),
    );
    said(
        Problem::invalid_ttl(0),
        400,
        "invalid-ttl",
        Some("0 seconds; the range is 1 to 86400"),
    );
    said(
        Problem::no_initializer("kv"),
        400,
        "no-initializer",
        Some("kv has no initializer to give the recipe to"),
    );
    said(
        Problem::unknown_instance("00ff"),
        404,
        "unknown-instance",
        Some("no instance 00ff; it may have expired"),
    );
    said(
        Problem::instance_exited("00ff"),
        409,
        "instance-exited",
        Some("instance 00ff cannot be renewed"),
    );
    said(
        Problem::prepare_failed(-2),
        500,
        "prepare-failed",
        Some("the prepare step exited with status -2"),
    );
    said(
        Problem::initializer_failed(3),
        500,
        "initializer-failed",
        Some("the initializer exited with status 3"),
    );
    said(Problem::bring_up_failed("no"), 500, "bring-up-failed", Some("no"));
    said(Problem::template_failed("no"), 500, "template-failed", Some("no"));
    said(
        Problem::recipe_file_invalid("/a", "gone"),
        400,
        "recipe-file-invalid",
        Some("/a: gone"),
    );
    said(Problem::invalid_body("bad"), 400, "invalid-body", Some("bad"));
    said(Problem::internal("oops"), 500, "internal", Some("oops"));
    said(Problem::unknown_route(), 404, "unknown-route", None);
    said(Problem::method_not_allowed(), 405, "method-not-allowed", None);
}

#[test]
fn ttls_are_bounded() {
    assert_eq!(ttl_duration(None).expect("default"), None);
    assert_eq!(
        ttl_duration(Some(2)).expect("in range").map(Duration::from_secs),
        Some(Duration::from_secs(2))
    );
    assert!(ttl_duration(Some(0)).is_err());
    assert!(ttl_duration(Some(MAX_TTL_SECONDS + 1)).is_err());
}

#[test]
fn ids_are_distinct_hex() {
    let first = new_id(&[0, 1, 2, 3, 0xfc, 0xfd, 0xfe, 0xff]);
    let second = new_id(&[0, 1, 2, 3, 0xfc, 0xfd, 0xfe, 0xfe]);
    assert_eq!(first.len(), 16);
    assert!(first.chars().all(|c| c.is_ascii_hexdigit()));
    assert_ne!(first, second);
    assert_eq!(first, "00010203fcfdfeff");
}

#[test]
fn services_are_listed_in_index_order() {
    let listed = list_services(&services());
    let listed: Vec<(&str, &str)> =
        listed.iter().map(|entry| (entry.name.as_str(), entry.version.as_str())).collect();
    assert_eq!(listed, [("db", "1"), ("db", "2"), ("kv", "1")]);
    assert!(list_services(&ServiceIndex::new()).is_empty());
}

fn refused(services: &ServiceIndex, request: &CreateInstance, roots: &Roots, same_user: bool) -> Problem {
    plan_instance(services, request, roots, same_user).expect_err("refused")
}

#[test]
fn a_request_is_planned() {
    let services = services();
    let plan = plan_instance(&services, &request("kv"), &no_roots(), true).expect("a plan");
    assert_eq!(plan.manifest.service.name, "kv");
    assert_eq!(plan.ttl_seconds, DEFAULT_TTL);
    assert!(matches!(plan.recipe, RecipeSource::Absent));

    let mut asked = request("db");
    asked.version = Some("2".to_string());
    asked.recipe = Some(encode_recipe(b"SELECT 1;"));
    asked.ttl_seconds = Some(60);
    let plan = plan_instance(&services, &asked, &no_roots(), true).expect("a plan");
    assert_eq!(plan.manifest.service.version, "2");
    assert_eq!(plan.ttl_seconds, 60);
    match plan.recipe {
        RecipeSource::Inline(recipe) => assert_eq!(recipe, b"SELECT 1;"),
        other => panic!("{other:?}"),
    }
}

#[test]
fn a_request_is_refused_for_the_first_thing_that_is_wrong() {
    let services = services();
    let mut asked = request("nothing");
    assert!(refused(&services, &asked, &no_roots(), true).is("unknown-service"));
    asked.ttl_seconds = Some(MAX_TTL_SECONDS + 1);
    assert!(refused(&services, &asked, &no_roots(), true).is("invalid-ttl"));
    assert!(refused(&services, &request("db"), &no_roots(), true).is("ambiguous-version"));
    let mut asked = request("kv");
    asked.recipe = Some("not base64!".to_string());
    assert!(refused(&services, &asked, &no_roots(), true).is("invalid-recipe"));
    asked.recipe = Some(encode_recipe(b"x"));
    assert!(refused(&services, &asked, &no_roots(), true).is("no-initializer"));
    // The same, whatever the recipe field decodes to.
    let problem = plan_with(&services, &asked, Some(Ok(vec![1])), &no_roots(), true)
        .expect_err("no initializer");
    assert!(problem.is("no-initializer"));
}

#[test]
fn recipe_files_are_opted_into() {
    let services = services();
    let mut asked = request("db");
    asked.version = Some("1".to_string());
    asked.recipe_files = vec!["/recipes/a.sql".to_string()];
    assert!(refused(&services, &asked, &no_roots(), true).is("recipe-files-refused"));
    assert!(refused(&services, &asked, &some_roots(), false).is("recipe-files-refused"));
    let plan = plan_instance(&services, &asked, &some_roots(), true).expect("a plan");
    match plan.recipe {
        RecipeSource::Files(files) => assert_eq!(files, ["/recipes/a.sql"]),
        other => panic!("{other:?}"),
    }
    asked.recipe = Some(encode_recipe(b"x"));
    assert!(refused(&services, &asked, &some_roots(), true).is("invalid-body"));
    let mut asked = request("kv");
    asked.recipe_files = vec!["/recipes/a.sql".to_string()];
    assert!(refused(&services, &asked, &some_roots(), true).is("no-initializer"));
}

#[test]
fn a_failed_fork_is_retried_once() {
    assert!(matches!(after_failed_fork(false, Problem::template_failed("x")), Retry::Rebuild));
    match after_failed_fork(true, Problem::template_failed("x")) {
        Retry::Answer(problem) => assert!(problem.is("template-failed")),
        other => panic!("{other:?}"),
    }
}

#[test]
fn an_instance_is_created_renewed_and_deleted() {
    let services = services();
    let mut asked = request("kv");
    asked.ttl_seconds = Some(60);
    let plan = plan_instance(&services, &asked, &no_roots(), true).expect("a plan");
    let mut registry = Registry::new();
    let created = create_instance(&mut registry, "00ff", &plan, address(4000), 0);
    assert_eq!(created.location, "/v1/instances/00ff");
    assert_eq!(created.instance.state, InstanceState::Running);
    assert_eq!(created.instance.expires_in_seconds, 60);
    assert_eq!(created.instance.endpoint.host, "127.0.0.1");
    assert_eq!(created.instance.endpoint.port, 4000);

    let polled = get_instance(&registry, "00ff", 10 * NANOS).expect("poll");
    assert_eq!(polled.expires_in_seconds, 50);
    let renewed =
        renew_instance(&mut registry, "00ff", &RenewInstance { ttl_seconds: Some(2) }, 10 * NANOS)
            .expect("renew");
    assert_eq!(renewed.expires_in_seconds, 2);
    // Without a TTL the current one starts over.
    let renewed =
        renew_instance(&mut registry, "00ff", &RenewInstance { ttl_seconds: None }, 11 * NANOS)
            .expect("renew");
    assert_eq!(renewed.expires_in_seconds, 2);
    assert_eq!(list_instances(&registry, 11 * NANOS).len(), 1);

    let entry = delete_instance(&mut registry, "00ff").expect("delete");
    assert_eq!(entry.service, "kv");
    assert!(get_instance(&registry, "00ff", 0).expect_err("gone").is("unknown-instance"));
    assert!(delete_instance(&mut registry, "00ff").expect_err("gone").is("unknown-instance"));
    assert!(renew_instance(&mut registry, "00ff", &RenewInstance { ttl_seconds: None }, 0)
        .expect_err("gone")
        .is("unknown-instance"));
}

fn entry(id: &str, ttl_seconds: u64, now: u128) -> Entry {
    Entry::adopt(
        id.to_string(),
        "db".to_string(),
        "1".to_string(),
        address(4000),
        ttl_seconds,
        now,
    )
}

#[test]
fn a_renewal_is_refused_once_the_guest_has_exited() {
    let mut registry = Registry::new();
    registry.insert(entry("a", 60, 0));
    registry.set_state("a", GuestState::Exited(Some(7)));
    let problem = renew_instance(&mut registry, "a", &RenewInstance { ttl_seconds: None }, 0)
        .expect_err("exited");
    assert!(problem.is("instance-exited"));
    let problem = renew_instance(&mut registry, "a", &RenewInstance { ttl_seconds: Some(0) }, 0)
        .expect_err("out of range");
    assert!(problem.is("invalid-ttl"));
    let endless = RenewInstance { ttl_seconds: Some(u64::MAX) };
    let problem =
        renew_instance(&mut registry, "a", &endless, 10 * NANOS).expect_err("out of range");
    assert!(problem.is("invalid-ttl"));
    let polled = get_instance(&registry, "a", 0).expect("still held");
    assert_eq!(polled.state, InstanceState::Exited);
    assert_eq!(polled.exit_status, Some(7));
}

#[test]
fn a_sweep_removes_what_has_expired_and_nothing_else() {
    let mut registry = Registry::new();
    registry.insert(entry("c", 2, 0));
    registry.insert(entry("a", 5, 0));
    registry.insert(entry("b", 2, 0));
    let ids: Vec<&str> = registry.list().iter().map(|entry| entry.id.as_str()).collect();
    assert_eq!(ids, ["a", "b", "c"]);
    assert!(registry.remove_expired(2 * NANOS - 1).is_empty());
    let expired = registry.remove_expired(2 * NANOS);
    let ids: Vec<&str> = expired.iter().map(|entry| entry.id.as_str()).collect();
    assert_eq!(ids, ["b", "c"]);
    assert!(registry.get("a").is_some());
    assert!(registry.get("b").is_none());
    registry.clear();
    assert!(registry.list().is_empty());
}

#[test]
fn an_entry_replaces_one_with_the_same_id() {
    let mut registry = Registry::new();
    registry.insert(entry("a", 5, 0));
    registry.insert(entry("a", 9, 0));
    assert_eq!(registry.list().len(), 1);
    assert_eq!(registry.get("a").expect("held").lease.ttl_seconds, 9);
    assert!(!registry.get("a").expect("held").is_expired(9 * NANOS - 1));
    assert!(registry.get("a").expect("held").is_expired(9 * NANOS));
    // A lease that has run out has no time left.
    assert_eq!(registry.get("a").expect("held").describe(20 * NANOS).expires_in_seconds, 0);
}

#[test]
fn a_watcher_learns_of_the_end() {
    let mut state = GuestState::default();
    let event = Reply::Exited { run: Run::Child, status: 1, pid: Some(2) };
    assert!(matches!(state.watch(Some(&event)), WatchStep::Watch));
    assert_eq!(state, GuestState::Running);
    let event = Reply::Exited { run: Run::Guest, status: 3, pid: None };
    assert!(matches!(state.watch(Some(&event)), WatchStep::Stop));
    assert_eq!(state, GuestState::Exited(Some(3)));
    // What is known stays known when the host goes away.
    assert!(matches!(state.watch(None), WatchStep::Kill));
    assert_eq!(state, GuestState::Exited(Some(3)));
    let mut state = GuestState::default();
    state.watch(None);
    assert_eq!(state, GuestState::Exited(None));
}

#[test]
fn a_socket_is_claimed() {
    let socket = UnixPath::from_text("/run/s.sock");
    let facts = |exists, answers, parent| SocketFacts { exists, answers, parent };
    match claim_socket(&socket, &facts(true, true, None)) {
        Claim::Served(error) => assert_eq!(error, "/run/s.sock is already being served"),
        other => panic!("{other:?}"),
    }
    assert!(matches!(claim_socket(&socket, &facts(true, false, None)), Claim::RemoveStale));
    let parent = || UnixPath::from_text("/run");
    match claim_socket(&socket, &facts(false, false, Some((parent(), false)))) {
        Claim::CreateParent(dir) => assert_eq!(dir, parent()),
        other => panic!("{other:?}"),
    }
    assert!(matches!(
        claim_socket(&socket, &facts(false, false, Some((parent(), true)))),
        Claim::Ready
    ));
    assert!(matches!(
        claim_socket(&socket, &facts(false, false, Some((UnixPath::from_text(""), false)))),
        Claim::Ready
    ));
    assert_eq!(ready_line(&socket), "listening on /run/s.sock");
    assert_eq!(
        serving_line(&socket),
        "==> serving the API on /run/s.sock (try `curl --unix-socket /run/s.sock \
         localhost/v1/services`). Ctrl-C to stop."
    );
    // A path that is not UTF-8 is shown as far as it is.
    let odd = UnixPath::new(b"/run/\xff.sock".to_vec());
    assert_eq!(ready_line(&odd), "listening on /run/\u{fffd}.sock");
}

#[test]
fn calls_name_their_routes() {
    let call = Call::renew("00ff");
    assert_eq!(call.method, Method::Post);
    assert_eq!(call.path, "/v1/instances/00ff/renew");
    assert_eq!(Call::services().path, "/v1/services");
    assert_eq!(Call::services().method, Method::Get);
    assert_eq!(Call::create().expected, 201);
    assert_eq!(Call::instances().path, "/v1/instances");
    assert_eq!(Call::instance("a").path, "/v1/instances/a");
    let call = Call::delete("a");
    assert_eq!(call.method, Method::Delete);
    assert_eq!(call.expected, 204);
    assert!(call.is_refused(404));
    assert!(!call.is_refused(204));
}

#[test]
fn a_refusal_carries_its_problem() {
    match refusal(Some(Problem::unknown_route()), "404 Not Found", b"{}") {
        Refusal::Api(error) => {
            assert!(error.0.is("unknown-route"));
            assert!(error.text().contains("No such route"), "{}", error.text());
        }
        other => panic!("{other:?}"),
    }
    match refusal(None, "502 Bad Gateway", b"plain \xff") {
        Refusal::Other(said) => {
            assert!(said.contains("502 Bad Gateway"), "{said}");
            assert!(said.contains("plain \u{fffd}"), "{said}");
        }
        other => panic!("{other:?}"),
    }
    let error = ApiError(Problem::unknown_instance("a"));
    assert!(error.text().contains("no instance a; it may have expired"), "{}", error.text());
}
