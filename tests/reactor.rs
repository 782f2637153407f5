use chat::{AgentId, Effect, Frame, Message, Reactor, Request};

fn broadcast(s: &str) -> Frame {
    Frame::Message(Message::Broadcast(s.to_string()))
}

fn three_links() -> (Reactor, Vec<usize>) {
    let mut r = Reactor::new();
    let links = vec![
        r.link_ready("a".to_string(), AgentId::new("A")),
        r.link_ready("b".to_string(), AgentId::new("B")),
        r.link_ready("c".to_string(), AgentId::new("C")),
    ];
    (r, links)
}

#[test]
fn links_are_distinct_and_live() {
    let (r, links) = three_links();
    assert_ne!(links[0], links[1]);
    assert_ne!(links[1], links[2]);
    assert_ne!(links[0], links[2]);
    for l in &links {
        assert!(r.is_live(*l));
    }
    assert_eq!(r.peers().peer_table().len(), 3);
}

#[test]
fn a_received_broadcast_goes_to_every_other_link_and_every_observer() {
    let (mut r, links) = three_links();
    r.handle_request(Request::Observe);
    r.handle_request(Request::Observe);
    assert_eq!(r.observer_count(), 2);
    let effects = r.handle_message(links[1], Message::Broadcast("x".to_string()));
    let mut others = vec![links[0], links[2]];
    others.sort();
    assert_eq!(
        effects,
        vec![
            Effect::Send(others[0], broadcast("x")),
            Effect::Send(others[1], broadcast("x")),
            Effect::Notify(0, "x".to_string()),
            Effect::Notify(1, "x".to_string()),
        ]
    );
}

#[test]
fn a_local_broadcast_goes_to_every_link_and_every_observer() {
    let (mut r, links) = three_links();
    assert!(r.handle_request(Request::Observe).is_empty());
    let effects = r.handle_request(Request::Broadcast("ho".to_string()));
    let mut all = links.clone();
    all.sort();
    let mut expected: Vec<Effect> = all.iter().map(|l| Effect::Send(*l, broadcast("ho"))).collect();
    expected.push(Effect::Notify(0, "ho".to_string()));
    assert_eq!(effects, expected);
}

#[test]
fn a_broadcast_with_no_peers_reaches_only_observers() {
    let mut r = Reactor::new();
    assert!(r.handle_request(Request::Broadcast("x".to_string())).is_empty());
    r.handle_request(Request::Observe);
    assert_eq!(
        r.handle_request(Request::Broadcast("x".to_string())),
        vec![Effect::Notify(0, "x".to_string())]
    );
}

#[test]
fn a_closed_link_is_gone_and_hears_nothing_more() {
    let (mut r, links) = three_links();
    r.handle_request(Request::Observe);
    r.link_lost(links[0]);
    assert!(!r.is_live(links[0]));
    assert!(r.handle_message(links[0], Message::Broadcast("late".to_string())).is_empty());
    assert_eq!(r.peers().best_link(&AgentId::new("A")), None);
    r.link_lost(links[0]);
    assert!(!r.is_live(links[0]));
    let effects = r.handle_request(Request::Broadcast("y".to_string()));
    assert_eq!(effects.len(), 3);
}

#[test]
fn gossip_on_a_link_reaches_the_peer_table() {
    let (mut r, links) = three_links();
    let far = AgentId::new("far");
    let effects = r.handle_message(links[2], Message::Peers(vec![(far.clone(), 1)]));
    assert!(effects.is_empty());
    assert_eq!(r.peers().best_link(&far), Some(links[2]));
    let effects = r.handle_message(links[0], Message::Peers(vec![(AgentId::new("huge"), usize::MAX)]));
    assert!(effects.is_empty());
    assert_eq!(r.peers().best_link(&AgentId::new("huge")), None);
}
