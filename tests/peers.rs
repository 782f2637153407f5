use chat::{AgentId, Peers};

fn sorted(mut v: Vec<AgentId>) -> Vec<AgentId> {
    v.sort();
    v
}

#[test]
fn basics() {
    let mut peers = Peers::new();
    let a = AgentId::new("mars");
    let a1 = AgentId::new("foo");
    let a2 = AgentId::new("foo2");
    let a3 = AgentId::new("foo3");
    let (new, lost) = peers.update(0, a.clone(), vec![(a1.clone(), 0), (a2.clone(), 0)]);
    assert_eq!(sorted(new), sorted(vec![a.clone(), a1.clone(), a2.clone()]));
    assert_eq!(lost, vec![]);
    let (new, lost) = peers.update(0, a.clone(), vec![(a3.clone(), 0), (a2.clone(), 0)]);
    assert_eq!(sorted(new), sorted(vec![a3.clone()]));
    assert_eq!(lost, vec![a1.clone()]);
}

#[test]
fn two_links_to_one_peer() {
    let mut peers = Peers::new();
    let x = AgentId::new("x");
    assert_eq!(peers.peer(0, x.clone()), vec![x.clone()]);
    assert_eq!(peers.peer(1, x.clone()), vec![]);
    assert_eq!(peers.best_link(&x), Some(0));
    assert_eq!(peers.peer_table(), vec![(x.clone(), 0)]);
    assert_eq!(peers.drop_link(0), vec![]);
    assert_eq!(peers.best_link(&x), Some(1));
    assert_eq!(peers.drop_link(1), vec![x.clone()]);
    assert_eq!(peers.best_link(&x), None);
    assert!(peers.peer_table().is_empty());
}

#[test]
fn gossip_counts_one_more_hop() {
    let mut peers = Peers::new();
    let m = AgentId::new("m");
    let f = AgentId::new("f");
    peers.update(3, m.clone(), vec![(f.clone(), 4)]);
    let table = sorted_table(&peers);
    assert_eq!(table, vec![(f.clone(), 5), (m.clone(), 0)]);
    assert_eq!(peers.best_link(&f), Some(3));
}

fn sorted_table(peers: &Peers) -> Vec<(AgentId, usize)> {
    let mut t = peers.peer_table();
    t.sort();
    t
}

#[test]
fn shorter_route_wins_and_ties_keep_the_incumbent() {
    let mut peers = Peers::new();
    let a = AgentId::new("a");
    let b = AgentId::new("b");
    let far = AgentId::new("far");
    peers.update(0, a.clone(), vec![(far.clone(), 3)]);
    assert_eq!(peers.best_link(&far), Some(0));
    let (added, removed) = peers.update(1, b.clone(), vec![(far.clone(), 1)]);
    assert_eq!(sorted(added), vec![b.clone()]);
    assert!(removed.is_empty());
    assert_eq!(peers.best_link(&far), Some(1));
    peers.update(2, a.clone(), vec![(far.clone(), 1)]);
    assert_eq!(peers.best_link(&far), Some(1));
    assert!(sorted_table(&peers).contains(&(far.clone(), 2)));
}

#[test]
fn dropping_the_best_link_falls_back_to_the_shortest_left() {
    let mut peers = Peers::new();
    let a = AgentId::new("a");
    let b = AgentId::new("b");
    let c = AgentId::new("c");
    let far = AgentId::new("far");
    peers.update(0, a.clone(), vec![(far.clone(), 0)]);
    peers.update(1, b.clone(), vec![(far.clone(), 5)]);
    peers.update(2, c.clone(), vec![(far.clone(), 2)]);
    assert_eq!(peers.best_link(&far), Some(0));
    let removed = peers.drop_link(0);
    assert_eq!(removed, vec![a.clone()]);
    assert_eq!(peers.best_link(&far), Some(2));
    assert!(sorted_table(&peers).contains(&(far.clone(), 3)));
}

#[test]
fn an_agent_no_longer_reported_is_forgotten_once() {
    let mut peers = Peers::new();
    let m = AgentId::new("m");
    let f = AgentId::new("f");
    let (added, removed) = peers.update(0, m.clone(), vec![(f.clone(), 0), (f.clone(), 2)]);
    assert_eq!(sorted(added), vec![f.clone(), m.clone()]);
    assert!(removed.is_empty());
    assert!(sorted_table(&peers).contains(&(f.clone(), 3)));
    let (added, removed) = peers.update(0, m.clone(), vec![]);
    assert!(added.is_empty());
    assert_eq!(removed, vec![f.clone()]);
    assert_eq!(sorted_table(&peers), vec![(m.clone(), 0)]);
}

#[test]
fn added_and_removed_are_disjoint_and_new() {
    let mut peers = Peers::new();
    let m = AgentId::new("m");
    let x = AgentId::new("x");
    let y = AgentId::new("y");
    peers.peer(0, m.clone());
    let (added, removed) = peers.update(0, m.clone(), vec![(x.clone(), 0)]);
    assert_eq!(added, vec![x.clone()]);
    assert!(removed.is_empty());
    let (added, removed) = peers.update(0, m.clone(), vec![(y.clone(), 0)]);
    assert_eq!(added, vec![y.clone()]);
    assert_eq!(removed, vec![x.clone()]);
    assert_eq!(peers.best_link(&x), None);
}

#[test]
fn a_longer_report_on_the_best_link_keeps_the_recorded_distance() {
    let mut peers = Peers::new();
    let m = AgentId::new("m");
    let f = AgentId::new("f");
    peers.update(0, m.clone(), vec![(f.clone(), 0)]);
    assert!(sorted_table(&peers).contains(&(f.clone(), 1)));
    let (added, removed) = peers.update(0, m.clone(), vec![(f.clone(), 5)]);
    assert!(added.is_empty());
    assert!(removed.is_empty());
    assert_eq!(peers.best_link(&f), Some(0));
    assert!(sorted_table(&peers).contains(&(f.clone(), 1)));
}
