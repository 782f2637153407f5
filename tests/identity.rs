use chat::connection::host_label;
use chat::event::{ClientEvent, Error};
use chat::AgentId;

#[test]
fn identities_compare_by_name() {
    assert_eq!(AgentId::new("a"), AgentId::new("a"));
    assert_ne!(AgentId::new("a"), AgentId::new("b"));
    assert!(AgentId::new("a") < AgentId::new("b"));
    assert_eq!(AgentId::new("mars").name(), "mars");
}

#[test]
fn a_process_is_named_host_plus_pid() {
    assert_eq!(AgentId::for_process("box", 4242).name(), "box+4242");
    assert_eq!(AgentId::for_process("box", 0).name(), "box+0");
    assert_eq!(AgentId::for_process("", 4294967295).name(), "+4294967295");
    assert_eq!(AgentId::for_process("h", 10).name(), "h+10");
}

#[test]
fn the_local_identity_ends_with_the_pid() {
    let id = AgentId::new_local(31337);
    assert!(id.name().ends_with("+31337"));
    assert!(id.name().len() > "+31337".len());
}

#[test]
fn a_missing_host_name_has_a_placeholder() {
    assert_eq!(host_label(Some(Some("box".to_string()))), "box");
    assert_eq!(host_label(Some(None)), "Invalid Unicode?");
    assert_eq!(host_label(None), "Unknown?");
}

#[test]
fn client_events_and_errors() {
    assert_eq!(ClientEvent::Msg("x".to_string()), ClientEvent::Msg("x".to_string()));
    let e = std::io::Error::new(std::io::ErrorKind::Other, "gone");
    assert!(matches!(Error::from(e), Error::Io(_)));
}
