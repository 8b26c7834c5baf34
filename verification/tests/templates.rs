use servicecache::host::protocol::{Reply, Run};
use servicecache::manifest::{Guest, Manifest, Service};
use servicecache::path::UnixPath;
use servicecache::serve::api::Problem;
use servicecache::serve::templates::{
    count_child_exits, filling, fork_problem, Drain, Drained, ForkFailure, Key, Obtain, Owner,
    OwnerAction, OwnerEvent, Polled, Request, Stage, Templates,
};

fn manifest(name: &str) -> Manifest {
    Manifest {
        service: Service {
            name: name.to_string(),
            version: "1".to_string(),
            extensions: Vec::new(),
        },
        prepare: None,
        guest: Guest {
            module: UnixPath::from_text("/s/server.wasm"),
            args: Vec::new(),
            listen_port: 3306,
            ready: None,
        },
        initializer: None,
        directory: UnixPath::from_text("/s"),
    }
}

fn child_exit() -> Reply {
    Reply::Exited { run: Run::Child, status: 0, pid: Some(9) }
}

#[test]
fn keys_tell_services_and_recipes_apart() {
    let db = manifest("db");
    let kv = manifest("kv");
    assert!(Key::new(&db, None).is_same(&Key::new(&db, None)));
    assert!(!Key::new(&db, None).is_same(&Key::new(&kv, None)));
    assert!(!Key::new(&db, None).is_same(&Key::new(&db, Some(b""))));
    assert!(Key::new(&db, Some(b"x")).is_same(&Key::new(&db, Some(b"x"))));
    assert!(!Key::new(&db, Some(b"x")).is_same(&Key::new(&db, Some(b"y"))));
}

#[test]
fn a_template_is_filled_once_through_its_base() {
    let db = manifest("db");
    let mut templates = Templates::new();
    let mut first = Request::new();
    assert_eq!(templates.obtain(&db, Some(b"recipe"), &mut first), Obtain::FillBase);
    // Another request waits for the same template.
    let mut second = Request::new();
    assert_eq!(templates.obtain(&db, None, &mut second), Obtain::Wait);
    assert_eq!(templates.obtain(&db, None, &mut second), Obtain::Wait);
    assert_eq!(templates.slots[0].holders, 2);
    templates.filled(&mut first, Some(1));
    assert_eq!(templates.obtain(&db, None, &mut second), Obtain::Use(1));
    assert_eq!(templates.slots[0].holders, 0);
    // The first goes on with the base it has brought up.
    assert_eq!(templates.obtain(&db, Some(b"recipe"), &mut first), Obtain::FillRecipe(1));
    let mut third = Request::new();
    assert_eq!(templates.obtain(&db, Some(b"recipe"), &mut third), Obtain::Base(1));
    assert_eq!(templates.obtain(&db, Some(b"recipe"), &mut third), Obtain::Wait);
    templates.filled(&mut first, Some(2));
    assert_eq!(templates.obtain(&db, Some(b"recipe"), &mut third), Obtain::Use(2));
    let mut other = Request::new();
    assert_eq!(templates.obtain(&db, Some(b"other"), &mut other), Obtain::Base(1));
    assert_eq!(templates.obtain(&db, Some(b"other"), &mut other), Obtain::FillRecipe(1));
    // A base without a recipe is used as it was brought up.
    let mut base = Request { base: Some(7), slot: None, filling: false };
    assert_eq!(templates.obtain(&db, None, &mut base), Obtain::Use(7));
}

#[test]
fn a_failed_fill_is_retried_by_the_next_request() {
    let db = manifest("db");
    let mut templates = Templates::new();
    let mut first = Request::new();
    assert_eq!(templates.obtain(&db, None, &mut first), Obtain::FillBase);
    let mut second = Request::new();
    assert_eq!(templates.obtain(&db, None, &mut second), Obtain::Wait);
    templates.filled(&mut first, None);
    assert_eq!(templates.obtain(&db, None, &mut second), Obtain::FillBase);
    // So is one whose request goes away.
    templates.leave(&mut second);
    assert_eq!(templates.slots[0].holders, 0);
    let mut third = Request::new();
    assert_eq!(templates.obtain(&db, None, &mut third), Obtain::FillBase);
    templates.filled(&mut third, Some(1));
    templates.forget(&db, None);
    assert_eq!(templates.obtain(&db, None, &mut Request::new()), Obtain::FillBase);
}

#[test]
fn a_template_that_comes_up_after_it_was_forgotten_is_not_found() {
    let db = manifest("db");
    for clear in [false, true] {
        let mut templates = Templates::new();
        let mut first = Request::new();
        assert_eq!(templates.obtain(&db, None, &mut first), Obtain::FillBase);
        let mut waiting = Request::new();
        assert_eq!(templates.obtain(&db, None, &mut waiting), Obtain::Wait);
        if clear {
            templates.clear();
        } else {
            templates.forget(&db, None);
        }
        // The next request fills anew, and the first does not fill its slot.
        let mut second = Request::new();
        assert_eq!(templates.obtain(&db, None, &mut second), Obtain::FillBase);
        templates.filled(&mut first, Some(7));
        let mut third = Request::new();
        assert_eq!(templates.obtain(&db, None, &mut third), Obtain::Wait);
        // Who waited for the forgotten one gets it, and then it is gone.
        assert_eq!(templates.obtain(&db, None, &mut waiting), Obtain::Use(7));
        assert_eq!(templates.slots.len(), 1);
        templates.filled(&mut second, Some(8));
        assert_eq!(templates.obtain(&db, None, &mut third), Obtain::Use(8));
        assert_eq!(templates.obtain(&db, None, &mut Request::new()), Obtain::Use(8));
    }
}

#[test]
fn a_request_that_fills_nothing_changes_nothing() {
    let db = manifest("db");
    let mut templates = Templates::new();
    let mut first = Request::new();
    assert_eq!(templates.obtain(&db, None, &mut first), Obtain::FillBase);
    let mut waiting = Request::new();
    assert_eq!(templates.obtain(&db, None, &mut waiting), Obtain::Wait);
    templates.filled(&mut waiting, Some(9));
    assert_eq!(templates.obtain(&db, None, &mut waiting), Obtain::Wait);
    templates.filled(&mut first, Some(1));
    templates.filled(&mut first, Some(9));
    assert_eq!(templates.obtain(&db, None, &mut waiting), Obtain::Use(1));
}

#[test]
fn the_dead_are_replaced_and_pruned() {
    let db = manifest("db");
    let kv = manifest("kv");
    let mut templates = Templates::new();
    for (index, service) in [&db, &kv].into_iter().enumerate() {
        let mut request = Request::new();
        templates.obtain(service, None, &mut request);
        templates.filled(&mut request, Some(index as u64));
    }
    templates.died(0);
    templates.prune();
    assert_eq!(templates.slots.len(), 1);
    assert_eq!(templates.obtain(&kv, None, &mut Request::new()), Obtain::Use(1));
    let mut filling = Request::new();
    assert_eq!(templates.obtain(&db, None, &mut filling), Obtain::FillBase);
    // A slot that a request holds is left alone.
    templates.prune();
    assert_eq!(templates.slots.len(), 2);
    templates.filled(&mut filling, None);
    templates.prune();
    assert_eq!(templates.slots.len(), 1);
    templates.clear();
    assert!(templates.slots.is_empty());
}

/// An owner whose template has been brought up.
fn serving(ttl: u128, now: u128) -> Owner {
    let mut owner = Owner::base(true, ttl);
    assert!(matches!(owner.step(&OwnerEvent::Spawned(Ok(())), now), OwnerAction::Prepare));
    assert!(matches!(owner.step(&OwnerEvent::Prepared(Ok(0)), now), OwnerAction::Start));
    assert!(matches!(owner.step(&OwnerEvent::Started(Ok(())), now), OwnerAction::Freeze));
    assert!(matches!(owner.step(&OwnerEvent::Froze(Ok(())), now), OwnerAction::Offer));
    assert!(!owner.is_alive());
    assert!(matches!(owner.step(&OwnerEvent::Offered(true), now), OwnerAction::Wait));
    assert!(owner.is_alive());
    owner
}

#[test]
fn a_template_with_a_live_descendant_does_not_expire() {
    let mut owner = serving(300, 0);
    owner.step(&OwnerEvent::Forked(Ok(0)), 10);
    owner.step(&OwnerEvent::Forked(Ok(0)), 20);
    assert_eq!(owner.children, 2);
    assert!(matches!(owner.step(&OwnerEvent::Idle(Some(1)), 10_000), OwnerAction::Wait));
    assert!(matches!(owner.step(&OwnerEvent::Idle(Some(0)), 20_000), OwnerAction::Wait));
    // The last descendant exits: the TTL counts from there.
    assert!(matches!(owner.step(&OwnerEvent::Idle(Some(1)), 30_000), OwnerAction::Wait));
    assert!(matches!(owner.step(&OwnerEvent::Idle(Some(0)), 30_299), OwnerAction::Wait));
    assert!(matches!(owner.step(&OwnerEvent::Idle(Some(0)), 30_300), OwnerAction::Stop));
    assert_eq!(owner.stage, Stage::Gone);
    assert!(matches!(owner.step(&OwnerEvent::Forked(Ok(0)), 30_301), OwnerAction::Wait));
    assert!(!owner.is_alive());
}

#[test]
fn a_fork_that_has_exited_already_begins_the_idle_time_anew() {
    let mut owner = serving(300, 0);
    assert!(matches!(owner.step(&OwnerEvent::Idle(Some(0)), 200), OwnerAction::Wait));
    assert!(matches!(owner.step(&OwnerEvent::Forked(Ok(1)), 250), OwnerAction::Wait));
    assert_eq!(owner.children, 0);
    assert!(matches!(owner.step(&OwnerEvent::Idle(Some(0)), 549), OwnerAction::Wait));
    assert!(matches!(owner.step(&OwnerEvent::Idle(Some(0)), 550), OwnerAction::Stop));
}

#[test]
fn an_exit_too_many_counts_for_nothing_but_begins_the_idle_time_anew() {
    let mut owner = serving(300, 0);
    assert!(matches!(owner.step(&OwnerEvent::Idle(Some(3)), 299), OwnerAction::Wait));
    assert_eq!(owner.children, 0);
    assert!(matches!(owner.step(&OwnerEvent::Idle(Some(0)), 598), OwnerAction::Wait));
    assert!(matches!(owner.step(&OwnerEvent::Idle(Some(0)), 599), OwnerAction::Stop));
}

#[test]
fn a_template_that_is_never_forked_expires_from_its_freeze() {
    let mut owner = serving(300, 1000);
    assert!(matches!(owner.step(&OwnerEvent::Idle(Some(0)), 1299), OwnerAction::Wait));
    assert!(matches!(owner.step(&OwnerEvent::Idle(Some(0)), 1300), OwnerAction::Stop));
}

#[test]
fn a_failed_fork_or_a_lost_host_ends_the_template() {
    let mut owner = serving(300, 0);
    let failed = OwnerEvent::Forked(Err("wedged".to_string()));
    assert!(matches!(owner.step(&failed, 0), OwnerAction::Kill));
    let mut owner = serving(300, 0);
    assert!(matches!(owner.step(&OwnerEvent::Idle(None), 0), OwnerAction::Kill));
    let mut owner = serving(300, 0);
    assert!(matches!(owner.step(&OwnerEvent::Dropped, 0), OwnerAction::Stop));
}

fn problem(action: OwnerAction) -> (Problem, bool) {
    match action {
        OwnerAction::Fail { problem, kill } => (problem, kill),
        other => panic!("{other:?}"),
    }
}

#[test]
fn a_bring_up_that_fails_says_why() {
    let error = || Err("no".to_string());
    let (said, kill) = problem(Owner::base(true, 1).step(&OwnerEvent::Spawned(error()), 0));
    assert!(said.is("bring-up-failed") && !kill);
    let mut owner = Owner::base(true, 1);
    owner.step(&OwnerEvent::Spawned(Ok(())), 0);
    let (said, kill) = problem(owner.step(&OwnerEvent::Prepared(Ok(2)), 0));
    assert!(said.is("prepare-failed") && kill);
    let mut owner = Owner::recipe(1);
    let (said, kill) = problem(owner.step(&OwnerEvent::Initialized(Ok(2)), 0));
    assert!(said.is("initializer-failed") && kill);
    let mut owner = Owner::recipe(1);
    assert!(matches!(owner.step(&OwnerEvent::Initialized(Ok(0)), 0), OwnerAction::Freeze));
    // A failed freeze takes the host with it.
    let (said, kill) = problem(owner.step(&OwnerEvent::Froze(Err("no".to_string())), 0));
    assert!(said.is("bring-up-failed") && !kill);
    let mut owner = Owner::base(false, 1);
    assert!(matches!(owner.step(&OwnerEvent::Spawned(Ok(())), 0), OwnerAction::Start));
    let (said, kill) = problem(owner.step(&OwnerEvent::Started(Err("no".to_string())), 0));
    assert!(said.is("bring-up-failed") && kill);
}

#[test]
fn a_template_nobody_takes_is_stopped() {
    let mut owner = Owner::recipe(1);
    owner.step(&OwnerEvent::Initialized(Ok(0)), 0);
    owner.step(&OwnerEvent::Froze(Ok(())), 0);
    assert!(matches!(owner.step(&OwnerEvent::Offered(false), 0), OwnerAction::Stop));
    assert!(!owner.is_alive());
}

#[test]
fn exits_are_counted() {
    let guest = Reply::Exited { run: Run::Guest, status: 0, pid: None };
    assert_eq!(count_child_exits(&vec![child_exit(), guest, child_exit()]), 2);
    let mut drain = Drain::new();
    assert_eq!(drain.step(&Polled::Event(child_exit())), Drained::Again);
    assert_eq!(drain.step(&Polled::Interrupted), Drained::Again);
    assert_eq!(
        drain.step(&Polled::Event(Reply::Frozen { coroutines: 1 })),
        Drained::Again
    );
    assert_eq!(drain.step(&Polled::Nothing), Drained::Done);
    assert_eq!(drain.exits, 1);
    assert_eq!(drain.step(&Polled::Broken), Drained::Gone);
}

#[test]
fn a_failed_fork_is_a_template_failure() {
    let detail = |failure| fork_problem(&failure).detail.expect("a detail");
    assert!(fork_problem(&ForkFailure::Gone).is("template-failed"));
    assert_eq!(detail(ForkFailure::Gone), "the template is gone");
    assert_eq!(detail(ForkFailure::Died), "the template died forking");
    assert_eq!(detail(ForkFailure::Failed("x".to_string())), "x");
    assert_eq!(filling(Some(Ok(()))), Ok(()));
    let problem = filling(None).expect_err("no word");
    assert_eq!(problem.detail.as_deref(), Some("the template's owner thread died"));
}
