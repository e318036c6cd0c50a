use loglet_worker::schemas::{
    check_reserved_name, compute_handlers, ComponentType, DiscoveredHandlerMetadata,
    SchemasInner, SchemasUpdateCommand, SchemasUpdateError, ServiceLocation,
};

fn handler(name: &str) -> DiscoveredHandlerMetadata {
    DiscoveredHandlerMetadata {
        name: name.to_string(),
    }
}

#[test]
fn reserved_names_are_refused() {
    assert!(check_reserved_name("greeter").is_ok());
    assert!(check_reserved_name("openapi2").is_ok());
    match check_reserved_name("restate_internal") {
        Err(SchemasUpdateError::ReservedName(n)) => assert_eq!(n, "restate_internal"),
        _ => panic!("expected a reserved-name error"),
    }
    assert!(check_reserved_name("RESTATEservice").is_err());
    assert!(check_reserved_name("OpenAPI").is_err());
    assert!(check_reserved_name("openapi").is_err());
    assert!(check_reserved_name("restat").is_ok());
}

#[test]
fn compute_handlers_keeps_first_occurrence() {
    let out = compute_handlers(vec![
        handler("greet"),
        handler("other"),
        handler("greet"),
    ]);
    assert_eq!(out, vec!["greet".to_string(), "other".to_string()]);
}

#[test]
fn modify_component_updates_require_known_service() {
    let mut inner = SchemasInner::new();
    inner.add_service("greeter".to_string());

    match inner.compute_modify_component_updates("restateX".to_string(), true) {
        Err(SchemasUpdateError::ReservedName(n)) => assert_eq!(n, "restateX"),
        _ => panic!("expected a reserved-name error"),
    }
    match inner.compute_modify_component_updates("unknown".to_string(), true) {
        Err(SchemasUpdateError::UnknownComponent(n)) => assert_eq!(n, "unknown"),
        _ => panic!("expected an unknown-component error"),
    }
    match inner.compute_modify_component_updates("greeter".to_string(), false) {
        Ok(SchemasUpdateCommand::ModifyComponent { name, public }) => {
            assert_eq!(name, "greeter");
            assert!(!public);
        }
        _ => panic!("expected a modify command"),
    }
}

#[test]
fn insert_modify_and_remove_component() {
    let mut inner = SchemasInner::new();
    inner.add_deployment(7);

    // first registration: public by default
    inner
        .apply_insert_component(
            "greeter".to_string(),
            1,
            ComponentType::Service,
            7,
            vec![handler("greet"), handler("greet"), handler("other")],
        )
        .unwrap();
    let md = inner.resolve_latest_component("greeter").unwrap();
    assert_eq!(md.revision, 1);
    assert_eq!(md.latest_deployment, 7);
    assert!(md.public);
    assert_eq!(md.handlers, vec!["greet".to_string(), "other".to_string()]);
    assert_eq!(
        inner.resolve_latest_component_type("greeter"),
        Some(ComponentType::Service)
    );

    // visibility change
    inner
        .apply_modify_component("greeter".to_string(), false)
        .unwrap();
    let basic = inner
        .resolve_latest_component_handler("greeter", "greet")
        .unwrap();
    assert!(!basic.public);
    assert_eq!(basic.ty, ComponentType::Service);
    assert!(inner
        .resolve_latest_component_handler("greeter", "missing")
        .is_none());
    match inner.apply_modify_component("unknown".to_string(), true) {
        Err(SchemasUpdateError::UnknownComponent(n)) => assert_eq!(n, "unknown"),
        _ => panic!("expected an unknown-component error"),
    }

    // re-registration keeps the visibility but takes the new revision
    inner
        .apply_insert_component(
            "greeter".to_string(),
            2,
            ComponentType::VirtualObject,
            7,
            vec![handler("greet")],
        )
        .unwrap();
    let md = inner.resolve_latest_component("greeter").unwrap();
    assert_eq!(md.revision, 2);
    assert!(!md.public);
    assert_eq!(md.ty, ComponentType::VirtualObject);

    // a removal under a stale revision is a no-op
    inner.apply_remove_component("greeter".to_string(), 1).unwrap();
    assert!(inner.resolve_latest_component("greeter").is_some());
    // a removal under the current revision takes effect
    inner.apply_remove_component("greeter".to_string(), 2).unwrap();
    assert!(inner.resolve_latest_component("greeter").is_none());
}

#[test]
fn list_components_skips_built_ins() {
    let mut inner = SchemasInner::new();
    inner.add_deployment(1);
    inner
        .apply_insert_component(
            "alpha".to_string(),
            1,
            ComponentType::Service,
            1,
            vec![handler("a")],
        )
        .unwrap();
    inner.components.push((
        "builtin".to_string(),
        loglet_worker::schemas::ComponentSchemas {
            revision: 1,
            ty: ComponentType::Service,
            handlers: vec![],
            location: ServiceLocation::BuiltIn {
                ingress_available: true,
            },
        },
    ));
    let listed = inner.list_components();
    assert_eq!(listed.len(), 1);
    assert_eq!(listed[0].name, "alpha");
}
