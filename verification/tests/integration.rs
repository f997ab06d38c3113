use depcon::Container;
use depcon::DefaultProviderHook;
use depcon::Error;
use depcon::TypeInfo;

#[test]
fn test_struct_provider_impl() {
    let test_service = TypeInfo::of(1, "TestService");
    let test_provider = TypeInfo::of(2, "TestProvider");

    let mut container = Container::empty();
    container
        .register(test_provider, test_service, vec![])
        .unwrap();
    let actual = container.resolve(test_service);

    assert!(actual.is_ok());
    let handle = actual.unwrap();
    assert_eq!(container.instance(handle).provider, test_provider);
}

#[test]
fn test_resolve_chain() {
    let db_service = TypeInfo::of(1, "DbService");
    let repo_service = TypeInfo::of(2, "RepoService");
    let db_impl = TypeInfo::of(3, "DbImpl");
    let repo_impl = TypeInfo::of(4, "RepoImpl");

    let mut c = Container::empty();
    c.register(db_impl, db_service, vec![]).unwrap();
    c.register(repo_impl, repo_service, vec![db_service]).unwrap();

    let result = c.resolve(repo_service);
    assert!(result.is_ok());
    let repo_handle = result.unwrap();
    let repo = c.instance(repo_handle);
    assert_eq!(repo.provider, repo_impl);
    assert_eq!(repo.deps.len(), 1);

    // the repository's dependency is the very instance the database
    // service resolves to from the same container
    let db_dep = repo.deps[0];
    let db_handle = c.resolve(db_service).unwrap();
    assert_eq!(db_dep, db_handle);
    assert_eq!(c.instance(db_handle).provider, db_impl);
}

#[test]
fn test_dependency_cycle() {
    let cycle_a = TypeInfo::of(1, "CycleA");
    let cycle_b = TypeInfo::of(2, "CycleB");
    let cycle_impl_a = TypeInfo::of(3, "CycleImplA");
    let cycle_impl_b = TypeInfo::of(4, "CycleImplB");

    let mut c = Container::empty();
    c.register(cycle_impl_a, cycle_a, vec![cycle_b]).unwrap();
    c.register(cycle_impl_b, cycle_b, vec![cycle_a]).unwrap();

    let result = c.resolve(cycle_a);
    assert!(result.is_err());
    let error = result.unwrap_err();
    let actual = error.message();
    let expected = "Could not resolve CycleA due to dependency cycle:\n\
                    CycleImplA (as CycleA) ->\n\
                    CycleImplB (as CycleB) ->\n\
                    CycleImplA (as CycleA)";
    assert_eq!(actual, expected);

    // the in-progress stack is empty again: an unrelated, acyclic service
    // still resolves in the same container
    let plain = TypeInfo::of(5, "Plain");
    c.register(plain, plain, vec![]).unwrap();
    assert!(c.resolve(plain).is_ok());
}

#[test]
fn test_self_dependency_cycle() {
    let service = TypeInfo::of(1, "Snake");
    let provider = TypeInfo::of(2, "SnakeImpl");

    let mut c = Container::empty();
    c.register(provider, service, vec![service]).unwrap();

    let error = c.resolve(service).unwrap_err();
    assert!(matches!(error, Error::DependencyCycle { .. }));
    assert_eq!(
        error.message(),
        "Could not resolve Snake due to dependency cycle:\n\
         SnakeImpl (as Snake) ->\n\
         SnakeImpl (as Snake)"
    );
}

#[test]
fn test_auto_register() {
    let idb = TypeInfo::of(1, "IDb");
    let db = TypeInfo::of(2, "Db");
    let irepo = TypeInfo::of(3, "IRepo");
    let repo = TypeInfo::of(4, "Repo");

    let hooks = vec![
        DefaultProviderHook { provider: db, service: idb, deps: vec![] },
        DefaultProviderHook { provider: repo, service: irepo, deps: vec![] },
    ];

    let mut container = Container::auto(&hooks).unwrap();
    let result = container.resolve(irepo);

    assert!(result.is_ok());
    let handle = result.unwrap();
    assert_eq!(container.instance(handle).provider, repo);
}

#[test]
fn test_auto_distinct_services() {
    let s1 = TypeInfo::of(1, "Greeter");
    let p1 = TypeInfo::of(2, "GreeterImpl");
    let s2 = TypeInfo::of(3, "Mailer");
    let p2 = TypeInfo::of(4, "MailerImpl");

    let hooks = vec![
        DefaultProviderHook { provider: p1, service: s1, deps: vec![] },
        DefaultProviderHook { provider: p2, service: s2, deps: vec![] },
    ];

    let mut container = Container::auto(&hooks).unwrap();
    let h1 = container.resolve(s1).unwrap();
    let h2 = container.resolve(s2).unwrap();
    assert_eq!(container.instance(h1).provider, p1);
    assert_eq!(container.instance(h2).provider, p2);
}

#[test]
fn test_auto_duplicate_service_fails() {
    let service = TypeInfo::of(1, "Clock");
    let p1 = TypeInfo::of(2, "WallClock");
    let p2 = TypeInfo::of(3, "FakeClock");

    let hooks = vec![
        DefaultProviderHook { provider: p1, service, deps: vec![] },
        DefaultProviderHook { provider: p2, service, deps: vec![] },
    ];

    let error = match Container::auto(&hooks) {
        Ok(_) => panic!("two bindings for one service must not auto-register"),
        Err(e) => e,
    };
    assert_eq!(
        error,
        Error::DuplicateRegistration {
            service,
            registered_provider: p1,
            rejected_provider: p2,
        }
    );
}

#[test]
fn test_auto_no_hooks() {
    let hooks: Vec<DefaultProviderHook> = vec![];
    let mut container = Container::auto(&hooks).unwrap();

    let service = TypeInfo::of(1, "Anything");
    assert_eq!(
        container.resolve(service).unwrap_err(),
        Error::NoProvider { service }
    );
}

#[test]
fn test_missing_dependency_reports_the_dependency() {
    let service = TypeInfo::of(1, "Svc");
    let provider = TypeInfo::of(2, "SvcImpl");
    let missing = TypeInfo::of(3, "Missing");

    let mut c = Container::empty();
    c.register(provider, service, vec![missing]).unwrap();

    // the failure names the dependency that lacks a binding, not the
    // service originally asked for
    let error = c.resolve(service).unwrap_err();
    assert_eq!(error, Error::NoProvider { service: missing });
}

#[test]
fn test_deep_chain_builds_each_provider_once() {
    let a = TypeInfo::of(1, "Alpha");
    let b = TypeInfo::of(2, "Beta");
    let c_svc = TypeInfo::of(3, "Gamma");

    let mut c = Container::empty();
    c.register(a, a, vec![b, c_svc]).unwrap();
    c.register(b, b, vec![c_svc]).unwrap();
    c.register(c_svc, c_svc, vec![]).unwrap();

    let top = c.resolve(a).unwrap();
    assert_eq!(c.instance_count(), 3);

    // both paths to the shared dependency reach the same instance
    let top_inst = c.instance(top);
    let beta = top_inst.deps[0];
    let gamma_direct = top_inst.deps[1];
    let gamma_via_beta = c.instance(beta).deps[0];
    assert_eq!(gamma_direct, gamma_via_beta);

    // resolving again constructs nothing new
    let again = c.resolve(a).unwrap();
    assert_eq!(again, top);
    assert_eq!(c.instance_count(), 3);
}
