use depcon::format_type_stack;
use depcon::Container;
use depcon::Error;
use depcon::Resolution;
use depcon::Resolver;
use depcon::TypeInfo;

#[test]
fn test_resolver_trait() {
    let service = TypeInfo::of(1, "Service");
    let mut container = Container::empty();
    container.register(service, service, vec![]).unwrap();

    let handle = Resolver::resolve(&mut container, service).unwrap();
    assert_eq!(container.instance(handle).provider, service);
}

#[test]
fn test_type_info_equality_ignores_name() {
    assert_eq!(TypeInfo::of(1, "One"), TypeInfo::of(1, "Eins"));
    assert_ne!(TypeInfo::of(1, "One"), TypeInfo::of(2, "One"));
}

#[test]
fn test_format_type_stack() {
    let s1 = TypeInfo::of(1, "S1");
    let a = TypeInfo::of(2, "A");
    let s2 = TypeInfo::of(3, "S2");
    let b = TypeInfo::of(4, "B");
    let stack = vec![
        Resolution { service: s1, provider: a },
        Resolution { service: s2, provider: b },
    ];
    assert_eq!(format_type_stack(&stack), "A (as S1) ->\nB (as S2)");
    assert_eq!(format_type_stack(&vec![]), "");
}

#[test]
fn test_register_duplicate() {
    let service = TypeInfo::of(1, "Service");

    let mut container = Container::empty();
    container.register(service, service, vec![]).unwrap();
    let actual = container
        .register(service, service, vec![])
        .unwrap_err()
        .message();
    let expected = "Could not register Service for Service due to conflict \
        with existing provider: Service";

    assert_eq!(actual, expected);
}

#[test]
fn test_register_service_resolve_provider() {
    let interface = TypeInfo::of(1, "Interface");
    let implementation = TypeInfo::of(2, "Implementation");

    let mut container = Container::empty();
    container
        .register(implementation, interface, vec![])
        .unwrap();

    // the self-registration fallback keeps the concrete provider resolvable
    let actual = container.resolve(implementation);
    assert!(actual.is_ok());
    let handle = actual.unwrap();
    assert_eq!(container.instance(handle).provider, implementation);
}

#[test]
fn test_all_types_provide_self() {
    let service = TypeInfo::of(1, "Service");

    let mut container = Container::empty();
    container.register(service, service, vec![]).unwrap();

    let handle = container.resolve(service).unwrap();
    assert_eq!(container.instance(handle).provider, service);
}

#[test]
fn test_resolve_unregistered() {
    let service = TypeInfo::of(7, "Ghostly");

    let mut container = Container::empty();
    let error = container.resolve(service).unwrap_err();

    assert_eq!(error, Error::NoProvider { service });
    assert_eq!(
        error.message(),
        "No provider registered for service Ghostly"
    );
}

#[test]
fn test_duplicate_registration_fields() {
    let service = TypeInfo::of(1, "Service");
    let first = TypeInfo::of(2, "First");
    let second = TypeInfo::of(3, "Second");

    let mut container = Container::empty();
    container.register(first, service, vec![]).unwrap();
    let error = container.register(second, service, vec![]).unwrap_err();

    assert_eq!(
        error,
        Error::DuplicateRegistration {
            service,
            registered_provider: first,
            rejected_provider: second,
        }
    );
    assert_eq!(
        error.message(),
        "Could not register Second for Service due to conflict with existing provider: First"
    );

    // the original binding stays intact
    let handle = container.resolve(service).unwrap();
    assert_eq!(container.instance(handle).provider, first);
}

#[test]
fn test_singleton_identity() {
    let service = TypeInfo::of(1, "Service");
    let provider = TypeInfo::of(2, "Provider");

    let mut container = Container::empty();
    container.register(provider, service, vec![]).unwrap();

    let first = container.resolve(service).unwrap();
    let count_after_first = container.instance_count();
    let second = container.resolve(service).unwrap();

    // identical handle, and the factory ran exactly once across both calls
    assert_eq!(first, second);
    assert_eq!(count_after_first, 1);
    assert_eq!(container.instance_count(), 1);
}

#[test]
fn test_one_provider_many_services() {
    let reader = TypeInfo::of(1, "Reader");
    let writer = TypeInfo::of(2, "Writer");
    let file = TypeInfo::of(3, "File");

    let mut container = Container::empty();
    container.register(file, reader, vec![]).unwrap();
    container.register(file, writer, vec![]).unwrap();

    let as_reader = container.resolve(reader).unwrap();
    let as_writer = container.resolve(writer).unwrap();
    let as_itself = container.resolve(file).unwrap();

    // one underlying instance backs every service view
    assert_eq!(as_reader, as_writer);
    assert_eq!(as_reader, as_itself);
    assert_eq!(container.instance_count(), 1);
}

#[test]
fn test_register_overwrite_replaces_binding() {
    let service = TypeInfo::of(1, "Service");
    let first = TypeInfo::of(2, "First");
    let second = TypeInfo::of(3, "Second");

    let mut container = Container::empty();
    container.register(first, service, vec![]).unwrap();
    container.register_overwrite(second, service, vec![]);

    let handle = container.resolve(service).unwrap();
    assert_eq!(container.instance(handle).provider, second);
}

#[test]
fn test_register_overwrite_keeps_cached_instances() {
    let service = TypeInfo::of(1, "Service");
    let first = TypeInfo::of(2, "First");
    let second = TypeInfo::of(3, "Second");

    let mut container = Container::empty();
    container.register(first, service, vec![]).unwrap();
    let before = container.resolve(service).unwrap();

    // overwriting does not invalidate what was already resolved: the
    // cached handle stays visible until the container is rebuilt
    container.register_overwrite(second, service, vec![]);
    let after = container.resolve(service).unwrap();

    assert_eq!(before, after);
    assert_eq!(container.instance(after).provider, first);
}

#[test]
fn test_dependency_order_kept() {
    let first = TypeInfo::of(1, "First");
    let second = TypeInfo::of(2, "Second");
    let consumer = TypeInfo::of(3, "Consumer");
    let consumer_impl = TypeInfo::of(4, "ConsumerImpl");

    let mut container = Container::empty();
    container.register(first, first, vec![]).unwrap();
    container.register(second, second, vec![]).unwrap();
    container
        .register(consumer_impl, consumer, vec![first, second])
        .unwrap();

    let handle = container.resolve(consumer).unwrap();
    let expected_first = container.resolve(first).unwrap();
    let expected_second = container.resolve(second).unwrap();

    let instance = container.instance(handle);
    assert_eq!(instance.deps.len(), 2);
    assert_eq!(instance.deps[0], expected_first);
    assert_eq!(instance.deps[1], expected_second);
}
