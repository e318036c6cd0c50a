use loglet_worker::invoke::{
    invocation_path, send_mode, InvocationTarget, InvokeError, SendMode,
};

#[test]
fn parses_service_target() {
    match InvocationTarget::from_str("MyService/myHandler") {
        Ok(InvocationTarget::Service { service, method }) => {
            assert_eq!(service, "MyService");
            assert_eq!(method, "myHandler");
        }
        _ => panic!("expected a service target"),
    }
}

#[test]
fn parses_object_target() {
    match InvocationTarget::from_str("MyVirtualObject/myObjectKey/myHandler") {
        Ok(InvocationTarget::Object {
            service,
            key,
            method,
        }) => {
            assert_eq!(service, "MyVirtualObject");
            assert_eq!(key, "myObjectKey");
            assert_eq!(method, "myHandler");
        }
        _ => panic!("expected an object target"),
    }
}

#[test]
fn refuses_malformed_targets() {
    assert!(matches!(
        InvocationTarget::from_str("NoSeparator"),
        Err(InvokeError::InvalidTarget)
    ));
    assert!(matches!(
        InvocationTarget::from_str("a/b/c/d"),
        Err(InvokeError::InvalidTarget)
    ));
    assert!(matches!(
        InvocationTarget::from_str(""),
        Err(InvokeError::InvalidTarget)
    ));
}

#[test]
fn empty_parts_are_preserved() {
    // splitting is purely positional: empty segments stay empty
    match InvocationTarget::from_str("/a/b") {
        Ok(InvocationTarget::Object {
            service,
            key,
            method,
        }) => {
            assert_eq!(service, "");
            assert_eq!(key, "a");
            assert_eq!(method, "b");
        }
        _ => panic!("expected an object target"),
    }
}

#[test]
fn builds_invocation_paths() {
    let service = InvocationTarget::from_str("Greeter/greet").unwrap();
    assert_eq!(invocation_path(&service), "/Greeter/greet/");
    let object = InvocationTarget::from_str("Greeter/alice/greet").unwrap();
    assert_eq!(invocation_path(&object), "/Greeter/alice/greet/");
}

#[test]
fn chooses_send_mode() {
    assert_eq!(send_mode(None, false), SendMode::Call);
    assert_eq!(send_mode(None, true), SendMode::Send);
    assert_eq!(send_mode(Some(30), false), SendMode::SendDelayed(30));
    assert_eq!(send_mode(Some(30), true), SendMode::SendDelayed(30));
}
