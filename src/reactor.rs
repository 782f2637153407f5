//! The reactor: the one owner of an agent's live sessions, peer table and
//! observers. It turns each event into the effects to carry out.
use crate::connection::AgentId;
use crate::peers::{drops_link, heard_on, offer, report, takes_report, Peers};
use crate::types::{Frame, Message, Request};
use vstd::prelude::*;

verus! {

#[verifier::external_type_specification]
#[verifier::external_body]
#[verifier::reject_recursive_types(T)]
pub struct ExSlab<T>(slab::Slab<T>);

/// The live sessions: link to remote identity and address.
pub type Sessions = slab::Slab<(AgentId, String)>;

/// What a `Sessions` slab holds: per link, the views of the remote identity
/// and of the address.
pub uninterp spec fn sessions_of(s: slab::Slab<(AgentId, String)>) -> Map<usize, (Seq<char>, Seq<char>)>;

/// Relies on `Slab::new`: the new slab is empty.
#[verifier::external_body]
fn sessions_new() -> (r: Sessions)
    ensures
        sessions_of(r).is_empty(),
{
    slab::Slab::new()
}

/// Relies on `Slab::insert`: the value goes under a key that was vacant, which
/// comes back; other keys are kept.
#[verifier::external_body]
fn sessions_insert(s: &mut Sessions, v: (AgentId, String)) -> (key: usize)
    ensures
        !sessions_of(*old(s)).contains_key(key),
        sessions_of(*final(s)) == sessions_of(*old(s)).insert(key, (v.0@, v.1@)),
{
    s.insert(v)
}

/// Relies on `Slab::remove`, which panics on a vacant key: the key is gone,
/// other keys are kept.
#[verifier::external_body]
fn sessions_remove(s: &mut Sessions, key: usize)
    requires
        sessions_of(*old(s)).contains_key(key),
    ensures
        sessions_of(*final(s)) == sessions_of(*old(s)).remove(key),
{
    s.remove(key);
}

/// Relies on `Slab::get`: the remote identity under the key, if any.
#[verifier::external_body]
fn sessions_remote(s: &Sessions, key: usize) -> (r: Option<AgentId>)
    ensures
        r is Some == sessions_of(*s).contains_key(key),
        r matches Some(id) ==> id@ == sessions_of(*s)[key].0,
{
    s.get(key).map(|e| e.0.clone())
}

/// Relies on `Slab::iter`, which walks the slots in order: every key once,
/// ascending.
#[verifier::external_body]
fn sessions_keys(s: &Sessions) -> (r: Vec<usize>)
    ensures
        forall|i: int, j: int| 0 <= i < j < r.len() ==> r@[i] < r@[j],
        forall|k: usize| sessions_of(*s).contains_key(k) <==> r@.contains(k),
{
    s.iter().map(|(k, _)| k).collect()
}

/// One thing for the owner of the reactor to carry out.
#[derive(Debug, Clone, PartialEq, Eq)]
pub enum Effect {
    /// Write this frame to the session on this link.
    Send(usize, Frame),
    /// Hand this text to the observer registered at this position.
    Notify(usize, String),
}

/// `e` sends a broadcast of `s`.
pub open spec fn sends_broadcast(e: Effect, s: Seq<char>) -> bool {
    e matches Effect::Send(_, Frame::Message(Message::Broadcast(t))) && t@ == s
}

/// The link `e` sends to.
pub open spec fn target(e: Effect) -> usize {
    match e {
        Effect::Send(l, _) => l,
        Effect::Notify(_, _) => 0,
    }
}

/// `e` hands `s` to the observer at position `i`.
pub open spec fn notifies(e: Effect, i: int, s: Seq<char>) -> bool {
    e matches Effect::Notify(j, t) && j == i && t@ == s
}

/// `r` fans a broadcast of `s` out: first one send to each link of `links`,
/// in ascending order of link, then one delivery to each of the `observers`
/// observers, in order of registration.
pub open spec fn fans_out(r: Seq<Effect>, links: Set<usize>, observers: nat, s: Seq<char>) -> bool {
    let k = r.len() - observers;
    &&& r.len() >= observers
    &&& forall|i: int| 0 <= i < k ==> sends_broadcast(#[trigger] r[i], s)
    &&& forall|i: int, j: int| 0 <= i < j < k ==> target(r[i]) < target(r[j])
    &&& forall|l: usize| links.contains(l) <==> exists|i: int| 0 <= i < k && #[trigger] target(r[i]) == l
    &&& forall|i: int| 0 <= i < observers ==> notifies(#[trigger] r[k + i], i, s)
}

/// The links a broadcast goes to: every live link but `except`.
pub open spec fn targets(live: Set<usize>, except: Option<usize>) -> Set<usize> {
    match except {
        Some(l) => live.remove(l),
        None => live,
    }
}

/// Every distance in `list` can count one hop further.
pub open spec fn hops_fit(list: Seq<(AgentId, usize)>) -> bool {
    forall|i: int| 0 <= i < list.len() ==> #[trigger] list[i].1 < usize::MAX
}

/// Whether every distance in `list` can count one hop further.
fn fits_one_more_hop(list: &Vec<(AgentId, usize)>) -> (r: bool)
    ensures
        r == hops_fit(list@),
{
    let mut i: usize = 0;
    while i < list.len()
        invariant
            0 <= i <= list.len(),
            forall|j: int| 0 <= j < i ==> #[trigger] list@[j].1 < usize::MAX,
        decreases list.len() - i,
    {
        if list[i].1 == usize::MAX {
            return false;
        }
        i = i + 1;
    }
    true
}

/// The state of one agent: its live sessions, its peer table, and how many
/// observers have registered.
pub struct Reactor {
    sessions: Sessions,
    peers: Peers,
    observers: usize,
}

impl Reactor {
    /// Per live link, the views of the remote identity and of the address.
    pub closed spec fn sessions_view(&self) -> Map<usize, (Seq<char>, Seq<char>)> {
        sessions_of(self.sessions)
    }

    /// The peer table.
    pub closed spec fn peers_view(&self) -> Peers {
        self.peers
    }

    /// The number of registered observers.
    pub closed spec fn observers_view(&self) -> nat {
        self.observers as nat
    }

    /// The peer table is well formed and has a peer list for exactly the
    /// live links.
    pub open spec fn wf(&self) -> bool {
        &&& self.peers_view().wf()
        &&& self.peers_view().cache_view().dom() == self.sessions_view().dom()
    }

    /// A reactor with no sessions, no peers and no observers.
    pub fn new() -> (r: Reactor)
        ensures
            r.wf(),
            r.sessions_view().is_empty(),
            r.peers_view().best_view().is_empty(),
            r.observers_view() == 0,
    {
        let r = Reactor { sessions: sessions_new(), peers: Peers::new(), observers: 0 };
        proof {
            assert(r.peers_view().cache_view().dom() =~= r.sessions_view().dom());
        }
        r
    }

    /// The number of registered observers.
    pub fn observer_count(&self) -> (r: usize)
        ensures
            r == self.observers_view(),
    {
        self.observers
    }

    /// Whether `link` is live.
    pub fn is_live(&self, link: usize) -> (r: bool)
        ensures
            r == self.sessions_view().contains_key(link),
    {
        sessions_remote(&self.sessions, link).is_some()
    }

    /// The peer table.
    pub fn peers(&self) -> (r: &Peers)
        ensures
            *r == self.peers_view(),
    {
        &self.peers
    }

    /// A handshake completed: the session with `id` at `addr` gets a new
    /// link, which comes back, and `id` becomes a direct peer through it.
    pub fn link_ready(&mut self, addr: String, id: AgentId) -> (link: usize)
        requires
            old(self).wf(),
        ensures
            final(self).wf(),
            !old(self).sessions_view().contains_key(link),
            final(self).sessions_view() == old(self).sessions_view().insert(link, (id@, addr@)),
            final(self).peers_view().cache_view()
                == old(self).peers_view().cache_view().insert(link, map![id@ => 0usize]),
            forall|q: Seq<char>| #[trigger] final(self).peers_view().routes(q)
                == if q == id@ { old(self).peers_view().routes(q).insert(link, 0) } else { old(self).peers_view().routes(q) },
            final(self).peers_view().best_view()
                == old(self).peers_view().best_view().insert(id@, offer(old(self).peers_view().best_view(), id@, link, 0)),
            final(self).observers_view() == old(self).observers_view(),
    {
        let link = sessions_insert(&mut self.sessions, (id.clone(), addr));
        let ghost cache = self.peers.cache_view();
        proof {
            assert(!cache.contains_key(link));
            assert(heard_on(cache, link).insert(id@, 0) =~= map![id@ => 0usize]);
        }
        self.peers.peer(link, id);
        proof {
            assert(self.peers_view().cache_view().dom() =~= self.sessions_view().dom());
        }
        link
    }

    /// The session on `link` closed: the link is no longer live, and every
    /// route through it is gone. A link that is not live is left alone.
    pub fn link_lost(&mut self, link: usize)
        requires
            old(self).wf(),
        ensures
            final(self).wf(),
            final(self).sessions_view() == old(self).sessions_view().remove(link),
            old(self).sessions_view().contains_key(link) ==> drops_link(old(self).peers_view(), final(self).peers_view(), link),
            !old(self).sessions_view().contains_key(link) ==> final(self).peers_view() == old(self).peers_view(),
            final(self).observers_view() == old(self).observers_view(),
    {
        if sessions_remote(&self.sessions, link).is_some() {
            sessions_remove(&mut self.sessions, link);
            let _lost = self.peers.drop_link(link);
            proof {
                assert(self.peers_view().cache_view().dom() =~= self.sessions_view().dom());
            }
        } else {
            proof {
                assert(self.sessions_view() =~= old(self).sessions_view().remove(link));
            }
        }
    }

    /// A message arrived on `link`. A broadcast goes on to every other live
    /// link and to every observer; a peer list is taken into the peer table
    /// as what the link's remote end reports, unless one of its distances is
    /// too large to count one hop further. Nothing happens for a link that
    /// is not live.
    pub fn handle_message(&mut self, link: usize, msg: Message) -> (r: Vec<Effect>)
        requires
            old(self).wf(),
        ensures
            final(self).wf(),
            final(self).sessions_view() == old(self).sessions_view(),
            final(self).observers_view() == old(self).observers_view(),
            !old(self).sessions_view().contains_key(link) ==> r@.len() == 0 && final(self).peers_view() == old(self).peers_view(),
            old(self).sessions_view().contains_key(link) ==> match msg {
                Message::Broadcast(s) => {
                    &&& fans_out(r@, targets(old(self).sessions_view().dom(), Some(link)), old(self).observers_view(), s@)
                    &&& final(self).peers_view() == old(self).peers_view()
                },
                Message::Peers(list) => {
                    &&& r@.len() == 0
                    &&& hops_fit(list@) ==> takes_report(
                        old(self).peers_view(),
                        final(self).peers_view(),
                        link,
                        report(old(self).sessions_view()[link].0, list@),
                    )
                    &&& !hops_fit(list@) ==> final(self).peers_view() == old(self).peers_view()
                },
            },
    {
        match sessions_remote(&self.sessions, link) {
            None => Vec::new(),
            Some(id) => match msg {
                Message::Broadcast(s) => self.fan_out(&s, Some(link)),
                Message::Peers(list) => {
                    if fits_one_more_hop(&list) {
                        let _changes = self.peers.update(link, id, list);
                        proof {
                            assert(self.peers_view().cache_view().dom() =~= self.sessions_view().dom());
                        }
                    }
                    Vec::new()
                },
            },
        }
    }

    /// A request of the embedder. A broadcast goes to every live link and to
    /// every observer; `Observe` registers one more observer, at the next
    /// position.
    pub fn handle_request(&mut self, rq: Request) -> (r: Vec<Effect>)
        requires
            old(self).wf(),
            rq is Observe ==> old(self).observers_view() < usize::MAX,
        ensures
            final(self).wf(),
            final(self).sessions_view() == old(self).sessions_view(),
            final(self).peers_view() == old(self).peers_view(),
            match rq {
                Request::Broadcast(s) => {
                    &&& fans_out(r@, old(self).sessions_view().dom(), old(self).observers_view(), s@)
                    &&& final(self).observers_view() == old(self).observers_view()
                },
                Request::Observe => {
                    &&& r@.len() == 0
                    &&& final(self).observers_view() == old(self).observers_view() + 1
                },
            },
    {
        match rq {
            Request::Broadcast(s) => self.fan_out(&s, None),
            Request::Observe => {
                self.observers = self.observers + 1;
                Vec::new()
            },
        }
    }

    /// One send of a broadcast of `s` to each live link but `except`, in
    /// ascending order of link, then one delivery to each observer.
    fn fan_out(&self, s: &String, except: Option<usize>) -> (r: Vec<Effect>)
        ensures
            fans_out(r@, targets(self.sessions_view().dom(), except), self.observers_view(), s@),
    {
        let keys = sessions_keys(&self.sessions);
        let ghost live = self.sessions_view().dom();
        let mut out: Vec<Effect> = Vec::new();
        let mut i: usize = 0;
        while i < keys.len()
            invariant
                0 <= i <= keys.len(),
                out.len() <= i,
                live == self.sessions_view().dom(),
                forall|a: int, b: int| 0 <= a < b < keys.len() ==> keys@[a] < keys@[b],
                forall|k: usize| live.contains(k) <==> keys@.contains(k),
                forall|j: int| 0 <= j < out.len() ==> sends_broadcast(#[trigger] out@[j], s@),
                forall|a: int, b: int| 0 <= a < b < out.len() ==> target(out@[a]) < target(out@[b]),
                forall|j: int| 0 <= j < out.len() ==> exists|m: int|
                    0 <= m < i && keys@[m] == #[trigger] target(out@[j]) && except != Some(keys@[m]),
                forall|m: int| 0 <= m < i && except != Some(#[trigger] keys@[m]) ==> exists|j: int|
                    0 <= j < out.len() && #[trigger] target(out@[j]) == keys@[m],
            decreases keys.len() - i,
        {
            let l = keys[i];
            let ghost before = out@;
            let skip = match except {
                Some(x) => x == l,
                None => false,
            };
            if !skip {
                out.push(Effect::Send(l, Frame::Message(Message::Broadcast(s.clone()))));
                proof {
                    assert forall|a: int, b: int| 0 <= a < b < out.len() implies target(out@[a]) < target(out@[b]) by {
                        if b == out.len() - 1 {
                            let m = choose|m: int| 0 <= m < i && keys@[m] == #[trigger] target(before[a]) && except != Some(keys@[m]);
                            assert(out@[a] == before[a]);
                        } else {
                            assert(out@[a] == before[a]);
                            assert(out@[b] == before[b]);
                        }
                    }
                    assert forall|j: int| 0 <= j < out.len() implies exists|m: int|
                        0 <= m < i + 1 && keys@[m] == #[trigger] target(out@[j]) && except != Some(keys@[m]) by {
                        if j == out.len() - 1 {
                            assert(keys@[i as int] == target(out@[j]));
                        } else {
                            assert(out@[j] == before[j]);
                            let m = choose|m: int| 0 <= m < i && keys@[m] == #[trigger] target(before[j]) && except != Some(keys@[m]);
                        }
                    }
                    assert forall|m: int| 0 <= m < i + 1 && except != Some(#[trigger] keys@[m]) implies exists|j: int|
                        0 <= j < out.len() && #[trigger] target(out@[j]) == keys@[m] by {
                        if m == i {
                            assert(target(out@[out.len() - 1]) == keys@[m]);
                        } else {
                            let j = choose|j: int| 0 <= j < before.len() && #[trigger] target(before[j]) == keys@[m];
                            assert(out@[j] == before[j]);
                        }
                    }
                }
            } else {
                proof {
                    assert forall|j: int| 0 <= j < out.len() implies exists|m: int|
                        0 <= m < i + 1 && keys@[m] == #[trigger] target(out@[j]) && except != Some(keys@[m]) by {
                        let m = choose|m: int| 0 <= m < i && keys@[m] == #[trigger] target(out@[j]) && except != Some(keys@[m]);
                    }
                }
            }
            i = i + 1;
        }
        let k: usize = out.len();
        let ghost sends = out@;
        proof {
            assert forall|l: usize| targets(live, except).contains(l) <==> exists|j: int| 0 <= j < k && #[trigger] target(sends[j]) == l by {
                if targets(live, except).contains(l) {
                    assert(keys@.contains(l));
                    let m = choose|m: int| 0 <= m < keys@.len() && keys@[m] == l;
                    assert(except != Some(keys@[m]));
                }
                if exists|j: int| 0 <= j < k && #[trigger] target(sends[j]) == l {
                    let j = choose|j: int| 0 <= j < k && #[trigger] target(sends[j]) == l;
                    let m = choose|m: int| 0 <= m < keys@.len() && keys@[m] == #[trigger] target(out@[j]) && except != Some(keys@[m]);
                    assert(keys@.contains(l));
                }
            }
        }
        let mut o: usize = 0;
        while o < self.observers
            invariant
                0 <= o <= self.observers,
                out.len() == k + o,
                sends.len() == k,
                forall|j: int| 0 <= j < k ==> #[trigger] out@[j] == sends[j],
                forall|j: int| 0 <= j < k ==> sends_broadcast(#[trigger] sends[j], s@),
                forall|a: int, b: int| 0 <= a < b < k ==> target(sends[a]) < target(sends[b]),
                forall|l: usize| targets(live, except).contains(l) <==> exists|j: int| 0 <= j < k && #[trigger] target(sends[j]) == l,
                forall|j: int| 0 <= j < o ==> notifies(#[trigger] out@[k + j], j, s@),
            decreases self.observers - o,
        {
            out.push(Effect::Notify(o, s.clone()));
            proof {
                assert(notifies(out@[k + o as int], o as int, s@));
            }
            o = o + 1;
        }
        proof {
            assert(out@.subrange(0, k as int) =~= sends);
            assert forall|l: usize| targets(live, except).contains(l) <==> exists|j: int| 0 <= j < k && #[trigger] target(out@[j]) == l by {
                if exists|j: int| 0 <= j < k && #[trigger] target(out@[j]) == l {
                    let j = choose|j: int| 0 <= j < k && #[trigger] target(out@[j]) == l;
                    assert(out@[j] == sends[j]);
                }
                if targets(live, except).contains(l) {
                    let j = choose|j: int| 0 <= j < k && #[trigger] target(sends[j]) == l;
                    assert(out@[j] == sends[j]);
                }
            }
            assert forall|j: int| 0 <= j < k implies sends_broadcast(#[trigger] out@[j], s@) by {
                assert(out@[j] == sends[j]);
            }
            assert forall|a: int, b: int| 0 <= a < b < k implies target(out@[a]) < target(out@[b]) by {
                assert(out@[a] == sends[a]);
                assert(out@[b] == sends[b]);
            }
        }
        out
    }
}

} // verus!
