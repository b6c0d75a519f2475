use debugbus::actors::console::ConsoleActor;
use debugbus::actors::debugger::DebuggerActor;
use debugbus::actors::AnyActor;
use debugbus::registry::{ActorRegistry, RegistryError};

#[test]
fn duplicate_registration_fails_and_first_stays() {
    let mut reg = ActorRegistry::new();
    let first = AnyActor::Console(ConsoleActor::new("console-1".to_string()));
    assert!(reg.register(first).is_ok());

    let second = AnyActor::Debugger(DebuggerActor::new("console-1".to_string()));
    assert_eq!(reg.register(second), Err(RegistryError::DuplicateId));

    let found = reg.lookup("console-1").expect("the first registration must stand");
    assert_eq!(found.type_tag(), "console");
    assert_eq!(reg.len(), 1);
}

#[test]
fn lookup_resolves_each_live_id() {
    let mut reg = ActorRegistry::new();
    assert!(reg.register(AnyActor::Console(ConsoleActor::new("c".to_string()))).is_ok());
    assert!(reg.register(AnyActor::Debugger(DebuggerActor::new("d".to_string()))).is_ok());
    assert_eq!(reg.lookup("c").unwrap().type_tag(), "console");
    assert_eq!(reg.lookup("d").unwrap().type_tag(), "debugger");
    assert!(reg.lookup("missing").is_none());
}

#[test]
fn unregister_hands_the_actor_back() {
    let mut reg = ActorRegistry::new();
    assert!(reg.register(AnyActor::Console(ConsoleActor::new("c".to_string()))).is_ok());
    let taken = reg.unregister("c").expect("a live id must unregister");
    assert_eq!(taken.name(), "c");
    assert!(reg.lookup("c").is_none());
    assert!(reg.unregister("c").is_none());
    assert_eq!(reg.len(), 0);
}

#[test]
fn id_is_free_again_after_unregister() {
    let mut reg = ActorRegistry::new();
    assert!(reg.register(AnyActor::Console(ConsoleActor::new("x".to_string()))).is_ok());
    assert!(reg.unregister("x").is_some());
    assert!(reg.register(AnyActor::Debugger(DebuggerActor::new("x".to_string()))).is_ok());
    assert_eq!(reg.lookup("x").unwrap().type_tag(), "debugger");
}

#[test]
fn list_snapshots_registration_order() {
    let mut reg = ActorRegistry::new();
    assert!(reg.register(AnyActor::Console(ConsoleActor::new("one".to_string()))).is_ok());
    assert!(reg.register(AnyActor::Debugger(DebuggerActor::new("two".to_string()))).is_ok());
    assert_eq!(reg.list(), vec!["one".to_string(), "two".to_string()]);
}
