//! The peer table: for every agent known through some link, the routes to it
//! and the best of them.
use crate::connection::AgentId;
use crate::tables::{
    best_entries, best_get, best_insert, best_new, best_of, best_remove, cache_insert, cache_new,
    cache_of, cache_remove, links_insert, links_new, links_of, links_remove, lists_by_link,
    lists_by_name, reach_entries,
    reach_get, reach_insert, reach_new, reach_of, routes_entries, routes_insert, routes_new,
    routes_of, routes_remove, Best, Cache, Links, Reach,
};
use vstd::prelude::*;

verus! {

broadcast use vstd::seq_lib::lemma_seq_contains_after_push;

/// The routes that `links` knows for `id`: none where it has no entry.
pub open spec fn routes_in(links: Map<Seq<char>, Map<usize, usize>>, id: Seq<char>) -> Map<usize, usize> {
    if links.contains_key(id) {
        links[id]
    } else {
        Map::empty()
    }
}

/// The peer list last heard on `link`: none where there is no entry.
pub open spec fn heard_on(cache: Map<usize, Map<Seq<char>, usize>>, link: usize) -> Map<Seq<char>, usize> {
    if cache.contains_key(link) {
        cache[link]
    } else {
        Map::empty()
    }
}

/// The distances a gossiped peer list gives, each one hop further than
/// advertised; a later entry for an agent wins over an earlier one.
pub open spec fn hops(peers: Seq<(AgentId, usize)>) -> Map<Seq<char>, usize>
    decreases peers.len(),
{
    if peers.len() == 0 {
        Map::empty()
    } else {
        hops(peers.drop_last()).insert(peers.last().0@, (peers.last().1 + 1) as usize)
    }
}

/// What a link reports when its remote end `id` gossips `peers`: the remote
/// itself at distance 0, and each advertised agent one hop further.
pub open spec fn report(id: Seq<char>, peers: Seq<(AgentId, usize)>) -> Map<Seq<char>, usize> {
    hops(peers).insert(id, 0)
}

/// `b` is a route of least distance among `routes`.
pub open spec fn picks(routes: Map<usize, usize>, b: (usize, usize)) -> bool {
    &&& routes.contains_key(b.0)
    &&& routes[b.0] == b.1
    &&& forall|l: usize| #[trigger] routes.contains_key(l) ==> b.1 <= routes[l]
}

/// The best route for `id` once `link` offers it at distance `d`: the offer
/// where `id` had none or where it is strictly shorter, else the incumbent.
pub open spec fn offer(best: Map<Seq<char>, (usize, usize)>, id: Seq<char>, link: usize, d: usize) -> (usize, usize) {
    if !best.contains_key(id) || d < best[id].1 {
        (link, d)
    } else {
        best[id]
    }
}

/// No agent whose best route runs through `link` is reported on it at a
/// greater distance than that route has.
pub open spec fn keeps_best(best: Map<Seq<char>, (usize, usize)>, link: usize, rep: Map<Seq<char>, usize>) -> bool {
    forall|q: Seq<char>|
        #[trigger] rep.contains_key(q) && best.contains_key(q) && best[q].0 == link ==> rep[q] <= best[q].1
}

/// The views of a list of agents.
pub open spec fn names(ids: Seq<AgentId>) -> Seq<Seq<char>> {
    ids.map_values(|a: AgentId| a@)
}

/// Some entry of `ids` before position `i` names `q`.
pub open spec fn seen(ids: Seq<(AgentId, usize)>, i: int, q: Seq<char>) -> bool {
    exists|j: int| 0 <= j < i && #[trigger] ids[j].0@ == q
}

/// `after` is `before` once `link` reports `rep`: the link's peer list is
/// `rep`; every agent in `rep` has a route through `link` at the distance
/// `rep` gives, and the best route `offer` picks; every other agent has no
/// route through `link`, and if it had one, a best route of least distance
/// where any route is left; all other best routes stay.
pub open spec fn takes_report(before: Peers, after: Peers, link: usize, rep: Map<Seq<char>, usize>) -> bool {
    &&& after.cache_view() == before.cache_view().insert(link, rep)
    &&& forall|q: Seq<char>| #[trigger] after.routes(q)
            == if rep.contains_key(q) { before.routes(q).insert(link, rep[q]) } else { before.routes(q).remove(link) }
    &&& forall|q: Seq<char>| rep.contains_key(q)
            ==> #[trigger] after.best_view()[q] == offer(before.best_view(), q, link, rep[q])
    &&& forall|q: Seq<char>|
            !rep.contains_key(q) && before.routes(q).contains_key(link) && #[trigger] after.best_view().contains_key(q)
                ==> picks(after.routes(q), after.best_view()[q])
    &&& forall|q: Seq<char>| #![trigger after.best_view().contains_key(q)] #![trigger after.best_view()[q]]
            !rep.contains_key(q) && !before.routes(q).contains_key(link) ==> {
                &&& after.best_view().contains_key(q) == before.best_view().contains_key(q)
                &&& before.best_view().contains_key(q) ==> after.best_view()[q] == before.best_view()[q]
            }
}

/// `after` is `before` once `link` is dropped: the link has no peer list and
/// no route runs through it; every agent that had a route through it has a
/// best route of least distance where any route is left; all other best
/// routes stay.
pub open spec fn drops_link(before: Peers, after: Peers, link: usize) -> bool {
    &&& after.cache_view() == before.cache_view().remove(link)
    &&& forall|q: Seq<char>| #[trigger] after.routes(q) == before.routes(q).remove(link)
    &&& forall|q: Seq<char>|
            before.routes(q).contains_key(link) && #[trigger] after.best_view().contains_key(q)
                ==> picks(after.routes(q), after.best_view()[q])
    &&& forall|q: Seq<char>| #![trigger after.best_view().contains_key(q)] #![trigger after.best_view()[q]]
            !before.routes(q).contains_key(link) ==> {
                &&& after.best_view().contains_key(q) == before.best_view().contains_key(q)
                &&& before.best_view().contains_key(q) ==> after.best_view()[q] == before.best_view()[q]
            }
}

/// `q` is listed in `ids` and not held in `kept`.
pub open spec fn unrouted(ids: Seq<(AgentId, usize)>, kept: Map<Seq<char>, usize>, q: Seq<char>) -> bool {
    seen(ids, ids.len() as int, q) && !kept.contains_key(q)
}

/// The peer table of one agent.
///
/// `cache` holds, per link, the peer list last heard on it; `links` holds,
/// per agent, its distance through each link; `best` holds, per agent, the
/// route currently chosen for it.
pub struct Peers {
    cache: Cache,
    best: Best,
    links: Links,
}

impl Peers {
    /// Per link, the agents last heard on it and their distances.
    pub closed spec fn cache_view(&self) -> Map<usize, Map<Seq<char>, usize>> {
        cache_of(self.cache)
    }

    /// Per agent, its distance through each link that reaches it.
    pub closed spec fn links_view(&self) -> Map<Seq<char>, Map<usize, usize>> {
        links_of(self.links)
    }

    /// Per agent, its chosen route: link and distance.
    pub closed spec fn best_view(&self) -> Map<Seq<char>, (usize, usize)> {
        best_of(self.best)
    }

    /// The routes to `id`, none where it is unknown.
    pub open spec fn routes(&self, id: Seq<char>) -> Map<usize, usize> {
        routes_in(self.links_view(), id)
    }

    /// The three indices agree: an agent is heard on a link exactly when the
    /// link is among its routes, at the same distance; an agent has routes
    /// exactly when it has a best route, and that route is one of them.
    pub open spec fn wf(&self) -> bool {
        &&& forall|l: usize, id: Seq<char>|
            #![trigger heard_on(self.cache_view(), l).contains_key(id)]
            #![trigger self.routes(id).contains_key(l)]
            heard_on(self.cache_view(), l).contains_key(id) <==> self.routes(id).contains_key(l)
        &&& forall|l: usize, id: Seq<char>|
            #[trigger] heard_on(self.cache_view(), l).contains_key(id)
                ==> heard_on(self.cache_view(), l)[id] == self.routes(id)[l]
        &&& forall|id: Seq<char>| #[trigger] self.links_view().contains_key(id) ==> !self.links_view()[id].is_empty()
        &&& self.best_view().dom() == self.links_view().dom()
        &&& forall|id: Seq<char>| #[trigger] self.best_view().contains_key(id)
                ==> self.links_view()[id].contains_key(self.best_view()[id].0)
    }

    /// Every best route is one of least distance.
    pub open spec fn best_is_min(&self) -> bool {
        forall|id: Seq<char>| #[trigger] self.best_view().contains_key(id)
            ==> picks(self.routes(id), self.best_view()[id])
    }

    /// An empty table.
    pub fn new() -> (r: Peers)
        ensures
            r.wf(),
            r.best_is_min(),
            r.cache_view().is_empty(),
            r.links_view().is_empty(),
            r.best_view().is_empty(),
    {
        Peers { cache: cache_new(), best: best_new(), links: links_new() }
    }

    /// Records `id` as the remote end of `link`, at distance 0: a new direct
    /// peer. The link now reports `id` at 0 (for a new link, that is all it
    /// reports); `id`'s best route becomes this link where it had none, or
    /// only longer ones. Returns `id` if it was unknown before, else nothing.
    pub fn peer(&mut self, link: usize, id: AgentId) -> (added: Vec<AgentId>)
        requires
            old(self).wf(),
        ensures
            final(self).wf(),
            final(self).cache_view()
                == old(self).cache_view().insert(link, heard_on(old(self).cache_view(), link).insert(id@, 0)),
            forall|q: Seq<char>| #[trigger] final(self).routes(q)
                == if q == id@ { old(self).routes(q).insert(link, 0) } else { old(self).routes(q) },
            final(self).best_view() == old(self).best_view().insert(id@, offer(old(self).best_view(), id@, link, 0)),
            names(added@) == (if old(self).best_view().contains_key(id@) { Seq::<Seq<char>>::empty() } else { seq![id@] }),
            old(self).best_is_min() ==> final(self).best_is_min(),
    {
        let had = best_get(&self.best, &id);
        let mut routes = match links_remove(&mut self.links, &id) {
            Some(r) => r,
            None => routes_new(),
        };
        routes_insert(&mut routes, link, 0);
        assert(routes_of(routes) =~= old(self).routes(id@).insert(link, 0));
        links_insert(&mut self.links, id.clone(), routes);
        let mut reach = match cache_remove(&mut self.cache, link) {
            Some(r) => r,
            None => reach_new(),
        };
        reach_insert(&mut reach, id.clone(), 0);
        assert(reach_of(reach) =~= heard_on(old(self).cache_view(), link).insert(id@, 0));
        cache_insert(&mut self.cache, link, reach);
        proof {
            assert(self.cache_view() =~= old(self).cache_view().insert(link, heard_on(old(self).cache_view(), link).insert(id@, 0)));
            assert forall|q: Seq<char>| #[trigger] self.routes(q)
                == if q == id@ { old(self).routes(q).insert(link, 0) } else { old(self).routes(q) } by {
                if q == id@ {
                    assert(self.routes(q) =~= old(self).routes(q).insert(link, 0));
                }
            }
        }
        let mut added: Vec<AgentId> = Vec::new();
        match had {
            None => {
                best_insert(&mut self.best, id.clone(), (link, 0));
                added.push(id);
            },
            Some(b) => {
                if 0 < b.1 {
                    best_insert(&mut self.best, id, (link, 0));
                } else {
                    best_insert(&mut self.best, id, b);
                }
            },
        }
        proof {
            let c = self.cache_view();
            assert forall|l: usize, q: Seq<char>|
                heard_on(c, l).contains_key(q) <==> #[trigger] self.routes(q).contains_key(l) by {
                assert(heard_on(old(self).cache_view(), l).contains_key(q) <==> old(self).routes(q).contains_key(l));
            }
            assert forall|l: usize, q: Seq<char>| #[trigger] heard_on(c, l).contains_key(q)
                implies heard_on(c, l)[q] == self.routes(q)[l] by {
                if !(l == link && q == id@) {
                    assert(old(self).routes(q).contains_key(l));
                }
            }
            assert forall|q: Seq<char>| #[trigger] self.links_view().contains_key(q)
                implies !self.links_view()[q].is_empty() by {
                if q == id@ {
                    assert(self.links_view()[q].contains_key(link));
                }
            }
            assert(self.best_view().dom() =~= self.links_view().dom());
            assert(names(added@) =~= (if old(self).best_view().contains_key(id@) { Seq::<Seq<char>>::empty() } else { seq![id@] }));
        }
        added
    }

    /// Takes `link` out of the routes to `id`. Where none is left, `id` is
    /// forgotten and comes back; else its best route becomes one of least
    /// distance among those left.
    fn drop_from_link(&mut self, id: &AgentId, link: usize) -> (r: Option<AgentId>)
        requires
            old(self).links_view().contains_key(id@),
        ensures
            final(self).cache_view() == old(self).cache_view(),
            ({
                let rest = old(self).links_view()[id@].remove(link);
                if rest.is_empty() {
                    &&& final(self).links_view() == old(self).links_view().remove(id@)
                    &&& final(self).best_view() == old(self).best_view().remove(id@)
                    &&& r matches Some(x) && x@ == id@
                } else {
                    &&& final(self).links_view() == old(self).links_view().insert(id@, rest)
                    &&& final(self).best_view() == old(self).best_view().insert(id@, final(self).best_view()[id@])
                    &&& picks(rest, final(self).best_view()[id@])
                    &&& r is None
                }
            }),
    {
        let mut routes = match links_remove(&mut self.links, id) {
            Some(r) => r,
            None => routes_new(),
        };
        routes_remove(&mut routes, link);
        let entries = routes_entries(&routes);
        if entries.len() == 0 {
            proof {
                let rest = routes_of(routes);
                if !rest.is_empty() {
                    let l = rest.dom().choose();
                    assert(rest.contains_key(l));
                }
            }
            best_remove(&mut self.best, id);
            Some(id.clone())
        } else {
            let ghost rest = routes_of(routes);
            assert(rest.contains_key(entries@[0].0));
            let mut bl: usize = entries[0].0;
            let mut bd: usize = entries[0].1;
            let mut i: usize = 1;
            while i < entries.len()
                invariant
                    1 <= i <= entries.len(),
                    lists_by_link(entries@, rest),
                    rest.contains_key(bl),
                    rest[bl] == bd,
                    forall|j: int| 0 <= j < i ==> bd <= #[trigger] entries@[j].1,
                decreases entries.len() - i,
            {
                assert(rest.contains_key(entries@[i as int].0));
                if entries[i].1 < bd {
                    bl = entries[i].0;
                    bd = entries[i].1;
                }
                i = i + 1;
            }
            proof {
                assert forall|l: usize| #[trigger] rest.contains_key(l) implies bd <= rest[l] by {
                    let j = choose|j: int| 0 <= j < entries@.len() && #[trigger] entries@[j].0 == l;
                    assert(rest[entries@[j].0] == entries@[j].1);
                }
            }
            best_insert(&mut self.best, id.clone(), (bl, bd));
            links_insert(&mut self.links, id.clone(), routes);
            proof {
                assert(self.links_view() =~= old(self).links_view().insert(id@, rest));
                assert(self.best_view() =~= old(self).best_view().insert(id@, self.best_view()[id@]));
            }
            None
        }
    }

    /// Offers each agent that `heard` holds a route through `link` at the
    /// distance it gives there. Returns the agents that were unknown.
    fn take_offers(&mut self, link: usize, heard: &Reach) -> (added: Vec<AgentId>)
        requires
            forall|q: Seq<char>| #[trigger] old(self).links_view().contains_key(q) ==> !old(self).links_view()[q].is_empty(),
        ensures
            ({
                let rep = reach_of(*heard);
                let (before, after) = (*old(self), *final(self));
                &&& after.cache_view() == before.cache_view()
                &&& forall|q: Seq<char>| #[trigger] after.routes(q)
                    == if rep.contains_key(q) { before.routes(q).insert(link, rep[q]) } else { before.routes(q) }
                &&& forall|q: Seq<char>| #[trigger] after.links_view().contains_key(q) ==> !after.links_view()[q].is_empty()
                &&& forall|q: Seq<char>| #![trigger after.best_view().contains_key(q)] #![trigger after.best_view()[q]] rep.contains_key(q) ==> {
                    &&& after.best_view().contains_key(q)
                    &&& after.best_view()[q] == offer(before.best_view(), q, link, rep[q])
                }
                &&& forall|q: Seq<char>| #![trigger after.best_view().contains_key(q)] #![trigger after.best_view()[q]] !rep.contains_key(q) ==> {
                    &&& after.best_view().contains_key(q) == before.best_view().contains_key(q)
                    &&& before.best_view().contains_key(q) ==> after.best_view()[q] == before.best_view()[q]
                }
                &&& names(added@).no_duplicates()
                &&& forall|q: Seq<char>| #[trigger] names(added@).contains(q)
                    <==> rep.contains_key(q) && !before.best_view().contains_key(q)
            }),
    {
        let ghost rep = reach_of(*heard);
        let ents = reach_entries(heard);
        let mut added: Vec<AgentId> = Vec::new();
        let mut k: usize = 0;
        while k < ents.len()
            invariant
                0 <= k <= ents.len(),
                lists_by_name(ents@, rep),
                self.cache_view() == old(self).cache_view(),
                forall|q: Seq<char>| #[trigger] self.routes(q)
                    == if seen(ents@, k as int, q) { old(self).routes(q).insert(link, rep[q]) } else { old(self).routes(q) },
                forall|q: Seq<char>| #[trigger] self.links_view().contains_key(q) ==> !self.links_view()[q].is_empty(),
                forall|q: Seq<char>| #![trigger self.best_view().contains_key(q)] #![trigger self.best_view()[q]] seen(ents@, k as int, q) ==> {
                    &&& self.best_view().contains_key(q)
                    &&& self.best_view()[q] == offer(old(self).best_view(), q, link, rep[q])
                },
                forall|q: Seq<char>| #![trigger self.best_view().contains_key(q)] #![trigger self.best_view()[q]] !seen(ents@, k as int, q) ==> {
                    &&& self.best_view().contains_key(q) == old(self).best_view().contains_key(q)
                    &&& old(self).best_view().contains_key(q) ==> self.best_view()[q] == old(self).best_view()[q]
                },
                names(added@).no_duplicates(),
                forall|q: Seq<char>| #[trigger] names(added@).contains(q)
                    <==> seen(ents@, k as int, q) && !old(self).best_view().contains_key(q),
            decreases ents.len() - k,
        {
            let p = &ents[k].0;
            let d = ents[k].1;
            let ghost before = *self;
            let ghost added_before = added@;
            proof {
                assert(rep.contains_key(ents@[k as int].0@));
                assert(!seen(ents@, k as int, p@));
                assert(before.best_view().contains_key(p@) == old(self).best_view().contains_key(p@));
                assert forall|q: Seq<char>| seen(ents@, k + 1, q) <==> seen(ents@, k as int, q) || q == p@ by {
                    if q == p@ {
                        assert(ents@[k as int].0@ == q);
                    }
                }
            }
            match best_get(&self.best, p) {
                Some(b) => {
                    if d < b.1 {
                        best_insert(&mut self.best, p.clone(), (link, d));
                    }
                },
                None => {
                    added.push(p.clone());
                    best_insert(&mut self.best, p.clone(), (link, d));
                },
            }
            let mut routes = match links_remove(&mut self.links, p) {
                Some(r) => r,
                None => routes_new(),
            };
            routes_insert(&mut routes, link, d);
            proof {
                assert(routes_of(routes) =~= before.routes(p@).insert(link, d));
            }
            links_insert(&mut self.links, p.clone(), routes);
            proof {
                assert(self.best_view().contains_key(p@));
                assert(self.best_view()[p@] == offer(before.best_view(), p@, link, d));
                assert(offer(before.best_view(), p@, link, d) == offer(old(self).best_view(), p@, link, rep[p@]));
                assert forall|q: Seq<char>| #[trigger] self.routes(q)
                    == if seen(ents@, k + 1, q) { old(self).routes(q).insert(link, rep[q]) } else { old(self).routes(q) } by {
                    if q != p@ {
                        assert(self.routes(q) == before.routes(q));
                    }
                }
                assert forall|q: Seq<char>| #[trigger] self.links_view().contains_key(q)
                    implies !self.links_view()[q].is_empty() by {
                    if q == p@ {
                        assert(self.links_view()[q].contains_key(link));
                    } else {
                        assert(before.links_view().contains_key(q));
                    }
                }
                assert forall|q: Seq<char>| #![trigger self.best_view().contains_key(q)] #![trigger self.best_view()[q]] seen(ents@, k + 1, q) implies {
                    &&& self.best_view().contains_key(q)
                    &&& self.best_view()[q] == offer(old(self).best_view(), q, link, rep[q])
                } by {
                    if q != p@ {
                        assert(self.best_view().contains_key(q) == before.best_view().contains_key(q));
                        assert(seen(ents@, k as int, q));
                    }
                }
                assert forall|q: Seq<char>| #![trigger self.best_view().contains_key(q)] #![trigger self.best_view()[q]] !seen(ents@, k + 1, q) implies {
                    &&& self.best_view().contains_key(q) == old(self).best_view().contains_key(q)
                    &&& old(self).best_view().contains_key(q) ==> self.best_view()[q] == old(self).best_view()[q]
                } by {
                    assert(q != p@);
                    assert(!seen(ents@, k as int, q));
                    assert(self.best_view().contains_key(q) == before.best_view().contains_key(q));
                }
                assert(!names(added_before).contains(p@));
                assert(names(added@) =~= if old(self).best_view().contains_key(p@) { names(added_before) } else { names(added_before).push(p@) });
            }
            k = k + 1;
        }
        proof {
            assert forall|q: Seq<char>| seen(ents@, k as int, q) <==> rep.contains_key(q) by {
                if seen(ents@, k as int, q) {
                    let j = choose|j: int| 0 <= j < k && #[trigger] ents@[j].0@ == q;
                    assert(rep.contains_key(ents@[j].0@));
                }
            }
        }
        added
    }

    /// Takes `link` out of the routes of each agent listed in `ids` that
    /// `keep` does not hold, as `drop_from_link` does. Returns the agents
    /// that were forgotten.
    fn unroute(&mut self, link: usize, ids: &Vec<(AgentId, usize)>, keep: &Reach) -> (removed: Vec<AgentId>)
        requires
            forall|i: int, j: int| 0 <= i < j < ids.len() ==> ids@[i].0@ != ids@[j].0@,
            forall|i: int| 0 <= i < ids.len() && !reach_of(*keep).contains_key(#[trigger] ids@[i].0@)
                ==> old(self).routes(ids@[i].0@).contains_key(link),
            forall|q: Seq<char>| #[trigger] old(self).links_view().contains_key(q) ==> !old(self).links_view()[q].is_empty(),
        ensures
            ({
                let kept = reach_of(*keep);
                let (before, after) = (*old(self), *final(self));
                &&& after.cache_view() == before.cache_view()
                &&& forall|q: Seq<char>| #[trigger] after.routes(q)
                    == if unrouted(ids@, kept, q) { before.routes(q).remove(link) } else { before.routes(q) }
                &&& forall|q: Seq<char>| #[trigger] after.links_view().contains_key(q) ==> !after.links_view()[q].is_empty()
                &&& forall|q: Seq<char>| #![trigger after.best_view().contains_key(q)] #![trigger after.best_view()[q]] unrouted(ids@, kept, q) ==> {
                    &&& after.best_view().contains_key(q) == !after.routes(q).is_empty()
                    &&& after.best_view().contains_key(q) ==> picks(after.routes(q), after.best_view()[q])
                }
                &&& forall|q: Seq<char>| #![trigger after.best_view().contains_key(q)] #![trigger after.best_view()[q]] !unrouted(ids@, kept, q) ==> {
                    &&& after.best_view().contains_key(q) == before.best_view().contains_key(q)
                    &&& before.best_view().contains_key(q) ==> after.best_view()[q] == before.best_view()[q]
                }
                &&& names(removed@).no_duplicates()
                &&& forall|q: Seq<char>| #[trigger] names(removed@).contains(q)
                    <==> unrouted(ids@, kept, q) && !after.best_view().contains_key(q)
            }),
    {
        let ghost kept = reach_of(*keep);
        let mut removed: Vec<AgentId> = Vec::new();
        let mut i: usize = 0;
        while i < ids.len()
            invariant
                0 <= i <= ids.len(),
                kept == reach_of(*keep),
                forall|i: int, j: int| 0 <= i < j < ids.len() ==> ids@[i].0@ != ids@[j].0@,
                forall|i: int| 0 <= i < ids.len() && !kept.contains_key(#[trigger] ids@[i].0@)
                    ==> old(self).routes(ids@[i].0@).contains_key(link),
                self.cache_view() == old(self).cache_view(),
                forall|q: Seq<char>| #[trigger] self.routes(q)
                    == if seen(ids@, i as int, q) && !kept.contains_key(q) { old(self).routes(q).remove(link) } else { old(self).routes(q) },
                forall|q: Seq<char>| #[trigger] self.links_view().contains_key(q) ==> !self.links_view()[q].is_empty(),
                forall|q: Seq<char>| #![trigger self.best_view().contains_key(q)] #![trigger self.best_view()[q]] !(seen(ids@, i as int, q) && !kept.contains_key(q)) ==> {
                    &&& self.best_view().contains_key(q) == old(self).best_view().contains_key(q)
                    &&& old(self).best_view().contains_key(q) ==> self.best_view()[q] == old(self).best_view()[q]
                },
                forall|q: Seq<char>| #![trigger self.best_view().contains_key(q)] #![trigger self.best_view()[q]] seen(ids@, i as int, q) && !kept.contains_key(q) ==> {
                    &&& self.best_view().contains_key(q) == !self.routes(q).is_empty()
                    &&& self.best_view().contains_key(q) ==> picks(self.routes(q), self.best_view()[q])
                },
                names(removed@).no_duplicates(),
                forall|q: Seq<char>| #[trigger] names(removed@).contains(q)
                    <==> seen(ids@, i as int, q) && !kept.contains_key(q) && !self.best_view().contains_key(q),
            decreases ids.len() - i,
        {
            let id = &ids[i].0;
            let ghost before = *self;
            let ghost removed_before = removed@;
            proof {
                assert(!seen(ids@, i as int, id@));
                assert forall|q: Seq<char>| seen(ids@, i + 1, q) <==> seen(ids@, i as int, q) || q == id@ by {
                    if q == id@ {
                        assert(ids@[i as int].0@ == q);
                    }
                }
            }
            if reach_get(keep, id).is_none() {
                proof {
                    assert(!kept.contains_key(ids@[i as int].0@));
                    assert(self.routes(id@).contains_key(link));
                }
                let dropped = self.drop_from_link(id, link);
                match dropped {
                    Some(x) => {
                        removed.push(x);
                    },
                    None => {},
                }
                proof {
                    assert forall|q: Seq<char>| #[trigger] self.routes(q)
                        == if seen(ids@, i + 1, q) && !kept.contains_key(q) { old(self).routes(q).remove(link) } else { old(self).routes(q) } by {
                        if q == id@ {
                            assert(self.routes(q) =~= before.routes(q).remove(link));
                        } else {
                            assert(self.routes(q) == before.routes(q));
                        }
                    }
                    assert forall|q: Seq<char>| #[trigger] self.links_view().contains_key(q)
                        implies !self.links_view()[q].is_empty() by {
                        if q != id@ {
                            assert(before.links_view().contains_key(q));
                        }
                    }
                    assert forall|q: Seq<char>| #![trigger self.best_view().contains_key(q)] #![trigger self.best_view()[q]] !(seen(ids@, i + 1, q) && !kept.contains_key(q)) implies {
                        &&& self.best_view().contains_key(q) == old(self).best_view().contains_key(q)
                        &&& old(self).best_view().contains_key(q) ==> self.best_view()[q] == old(self).best_view()[q]
                    } by {
                        assert(q != id@);
                        assert(self.best_view().contains_key(q) == before.best_view().contains_key(q));
                        assert(before.best_view().contains_key(q) ==> self.best_view()[q] == before.best_view()[q]);
                    }
                    assert forall|q: Seq<char>| #![trigger self.best_view().contains_key(q)] #![trigger self.best_view()[q]] seen(ids@, i + 1, q) && !kept.contains_key(q) implies {
                        &&& self.best_view().contains_key(q) == !self.routes(q).is_empty()
                        &&& self.best_view().contains_key(q) ==> picks(self.routes(q), self.best_view()[q])
                    } by {
                        if q != id@ {
                            assert(self.best_view().contains_key(q) == before.best_view().contains_key(q));
                            assert(self.routes(q) == before.routes(q));
                        }
                    }
                    assert(!names(removed_before).contains(id@));
                    assert(names(removed@) =~= if dropped.is_some() { names(removed_before).push(id@) } else { names(removed_before) });
                    assert forall|q: Seq<char>| #[trigger] names(removed@).contains(q)
                        <==> seen(ids@, i + 1, q) && !kept.contains_key(q) && !self.best_view().contains_key(q) by {
                        if q != id@ {
                            assert(self.best_view().contains_key(q) == before.best_view().contains_key(q));
                        }
                    }
                }
            } else {
                proof {
                    assert(kept.contains_key(id@));
                }
            }
            i = i + 1;
        }
        removed
    }

    /// Takes in the peer list that `id`, the remote end of `link`, gossips.
    ///
    /// The link now reports `report(id, peers)`: `id` at distance 0 and each
    /// listed agent one hop further than listed. Every reported agent gets a
    /// route through `link` at that distance, and it becomes the agent's best
    /// route where the agent was unknown or where it is strictly shorter. An
    /// agent the link reported before and no longer does loses that route:
    /// with none left it is forgotten; else, if its best route ran through
    /// `link`, it gets one of least distance among those left.
    ///
    /// Returns the agents that became known and those that were forgotten,
    /// each without repeats.
    pub fn update(&mut self, link: usize, id: AgentId, peers: Vec<(AgentId, usize)>) -> (r: (Vec<AgentId>, Vec<AgentId>))
        requires
            old(self).wf(),
            forall|i: int| 0 <= i < peers.len() ==> #[trigger] peers@[i].1 < usize::MAX,
        ensures
            ({
                let rep = report(id@, peers@);
                let (before, after) = (*old(self), *final(self));
                &&& after.wf()
                &&& takes_report(before, after, link, rep)
                &&& names(r.0@).no_duplicates()
                &&& forall|q: Seq<char>| #[trigger] names(r.0@).contains(q)
                    <==> !before.best_view().contains_key(q) && after.best_view().contains_key(q)
                &&& names(r.1@).no_duplicates()
                &&& forall|q: Seq<char>| #[trigger] names(r.1@).contains(q)
                    <==> before.best_view().contains_key(q) && !after.best_view().contains_key(q)
                &&& before.best_is_min() && keeps_best(before.best_view(), link, rep) ==> after.best_is_min()
            }),
    {
        let mut heard = reach_new();
        let mut i: usize = 0;
        while i < peers.len()
            invariant
                0 <= i <= peers.len(),
                forall|i: int| 0 <= i < peers.len() ==> #[trigger] peers@[i].1 < usize::MAX,
                reach_of(heard) == hops(peers@.take(i as int)),
            decreases peers.len() - i,
        {
            let d = peers[i].1;
            reach_insert(&mut heard, peers[i].0.clone(), d + 1);
            proof {
                assert(peers@.take(i + 1).drop_last() =~= peers@.take(i as int));
            }
            i = i + 1;
        }
        reach_insert(&mut heard, id.clone(), 0);
        let ghost rep = reach_of(heard);
        proof {
            assert(peers@.take(peers@.len() as int) =~= peers@);
            assert(rep == report(id@, peers@));
        }
        let added = self.take_offers(link, &heard);
        let ghost offered = *self;
        let prev = match cache_remove(&mut self.cache, link) {
            Some(r) => r,
            None => reach_new(),
        };
        let olds = reach_entries(&prev);
        let ghost prev_rep = heard_on(old(self).cache_view(), link);
        let ghost middle = *self;
        proof {
            assert(reach_of(prev) =~= prev_rep);
            assert(middle.links_view() == offered.links_view());
            assert forall|i: int| 0 <= i < olds@.len() && !rep.contains_key(#[trigger] olds@[i].0@)
                implies middle.routes(olds@[i].0@).contains_key(link) by {
                assert(middle.routes(olds@[i].0@) == offered.routes(olds@[i].0@));
                assert(prev_rep.contains_key(olds@[i].0@));
                assert(old(self).routes(olds@[i].0@).contains_key(link));
            }
        }
        let removed = self.unroute(link, &olds, &heard);
        let ghost unrouted_state = *self;
        cache_insert(&mut self.cache, link, heard);
        proof {
            let (before, after) = (*old(self), *self);
            assert(after.links_view() == unrouted_state.links_view());
            assert(after.best_view() == unrouted_state.best_view());
            assert(middle.best_view() == offered.best_view());
            assert(middle.links_view() == offered.links_view());
            assert forall|q: Seq<char>| unrouted(olds@, rep, q) <==> !rep.contains_key(q) && before.routes(q).contains_key(link) by {
                if before.routes(q).contains_key(link) {
                    assert(prev_rep.contains_key(q));
                }
                if seen(olds@, olds@.len() as int, q) {
                    let j = choose|j: int| 0 <= j < olds@.len() && #[trigger] olds@[j].0@ == q;
                    assert(prev_rep.contains_key(olds@[j].0@));
                }
            }
            assert forall|q: Seq<char>| #[trigger] after.routes(q)
                == if rep.contains_key(q) { before.routes(q).insert(link, rep[q]) } else { before.routes(q).remove(link) } by {
                assert(after.routes(q) == unrouted_state.routes(q));
                assert(middle.routes(q) == offered.routes(q));
                if !rep.contains_key(q) && !before.routes(q).contains_key(link) {
                    assert(before.routes(q) =~= before.routes(q).remove(link));
                }
            }
            assert forall|q: Seq<char>| #![trigger after.best_view().contains_key(q)] #![trigger after.best_view()[q]] rep.contains_key(q) implies {
                &&& after.best_view().contains_key(q)
                &&& after.best_view()[q] == offer(before.best_view(), q, link, rep[q])
            } by {
                assert(!unrouted(olds@, rep, q));
                assert(offered.best_view().contains_key(q));
                assert(middle.best_view().contains_key(q));
            }
            assert forall|q: Seq<char>| #![trigger after.best_view().contains_key(q)] #![trigger after.best_view()[q]] !rep.contains_key(q) && !before.routes(q).contains_key(link) implies {
                &&& after.best_view().contains_key(q) == before.best_view().contains_key(q)
                &&& before.best_view().contains_key(q) ==> after.best_view()[q] == before.best_view()[q]
            } by {
                assert(!unrouted(olds@, rep, q));
                assert(offered.best_view().contains_key(q) == before.best_view().contains_key(q));
                assert(middle.best_view().contains_key(q) == before.best_view().contains_key(q));
            }
            assert forall|q: Seq<char>| #[trigger] after.links_view().contains_key(q) <==> !after.routes(q).is_empty() by {
                if !after.links_view().contains_key(q) {
                    assert(after.routes(q) =~= Map::<usize, usize>::empty());
                }
            }
            assert forall|q: Seq<char>| #[trigger] before.links_view().contains_key(q) <==> !before.routes(q).is_empty() by {
                if !before.links_view().contains_key(q) {
                    assert(before.routes(q) =~= Map::<usize, usize>::empty());
                }
            }
            assert forall|q: Seq<char>| rep.contains_key(q) implies !after.routes(q).is_empty() by {
                assert(after.routes(q).contains_key(link));
            }
            assert forall|q: Seq<char>| #![trigger after.best_view().contains_key(q)] #![trigger after.best_view()[q]] !rep.contains_key(q) && before.routes(q).contains_key(link) implies {
                &&& after.best_view().contains_key(q) == !after.routes(q).is_empty()
                &&& after.best_view().contains_key(q) ==> picks(after.routes(q), after.best_view()[q])
            } by {
                assert(unrouted(olds@, rep, q));
            }
            assert(after.best_view().dom() =~= after.links_view().dom());
            let c = after.cache_view();
            assert forall|l: usize, q: Seq<char>|
                heard_on(c, l).contains_key(q) <==> #[trigger] after.routes(q).contains_key(l) by {
                assert(heard_on(before.cache_view(), l).contains_key(q) <==> before.routes(q).contains_key(l));
            }
            assert forall|l: usize, q: Seq<char>| #[trigger] heard_on(c, l).contains_key(q)
                implies heard_on(c, l)[q] == after.routes(q)[l] by {
                if l != link {
                    assert(heard_on(before.cache_view(), l).contains_key(q));
                }
            }
            assert forall|q: Seq<char>| #[trigger] after.best_view().contains_key(q)
                implies after.links_view()[q].contains_key(after.best_view()[q].0) by {
                if rep.contains_key(q) {
                    if before.best_view().contains_key(q) {
                        assert(before.links_view().contains_key(q));
                    }
                } else if !before.routes(q).contains_key(link) {
                    assert(before.links_view().contains_key(q));
                }
            }
            assert forall|q: Seq<char>| #[trigger] names(added@).contains(q)
                <==> !before.best_view().contains_key(q) && after.best_view().contains_key(q) by {
                if !rep.contains_key(q) && !before.best_view().contains_key(q) {
                    assert(!before.links_view().contains_key(q));
                    assert(before.routes(q) =~= Map::<usize, usize>::empty());
                }
            }
            assert forall|q: Seq<char>| #[trigger] names(removed@).contains(q)
                <==> before.best_view().contains_key(q) && !after.best_view().contains_key(q) by {
                if before.routes(q).contains_key(link) {
                    assert(before.links_view().contains_key(q));
                }
            }
            assert(after.cache_view() == before.cache_view().insert(link, rep));
            assert(forall|q: Seq<char>| rep.contains_key(q)
                ==> #[trigger] after.best_view()[q] == offer(before.best_view(), q, link, rep[q]));
            assert(forall|q: Seq<char>|
                !rep.contains_key(q) && before.routes(q).contains_key(link) && #[trigger] after.best_view().contains_key(q)
                    ==> picks(after.routes(q), after.best_view()[q]));
            assert(takes_report(before, after, link, rep));
            if before.best_is_min() && keeps_best(before.best_view(), link, rep) {
                assert forall|q: Seq<char>| #[trigger] after.best_view().contains_key(q)
                    implies picks(after.routes(q), after.best_view()[q]) by {
                    if rep.contains_key(q) {
                        if before.best_view().contains_key(q) {
                            assert(picks(before.routes(q), before.best_view()[q]));
                            assert(before.links_view().contains_key(q));
                        }
                    } else if !before.routes(q).contains_key(link) {
                        assert(picks(before.routes(q), before.best_view()[q]));
                    }
                }
            }
        }
        (added, removed)
    }

    /// Forgets `link`: it no longer reports anything, and no route runs
    /// through it. Each agent left with no route is forgotten and returned;
    /// each that had its best route through `link` gets one of least distance
    /// among those left.
    pub fn drop_link(&mut self, link: usize) -> (removed: Vec<AgentId>)
        requires
            old(self).wf(),
            old(self).cache_view().contains_key(link),
        ensures
            final(self).wf(),
            drops_link(*old(self), *final(self), link),
            names(removed@).no_duplicates(),
            forall|q: Seq<char>| #[trigger] names(removed@).contains(q)
                <==> old(self).best_view().contains_key(q) && !final(self).best_view().contains_key(q),
            old(self).best_is_min() ==> final(self).best_is_min(),
    {
        let gone = match cache_remove(&mut self.cache, link) {
            Some(r) => r,
            None => reach_new(),
        };
        let ids = reach_entries(&gone);
        let keep = reach_new();
        let ghost g = heard_on(old(self).cache_view(), link);
        proof {
            assert(reach_of(gone) =~= g);
            assert forall|i: int| 0 <= i < ids@.len() && !reach_of(keep).contains_key(#[trigger] ids@[i].0@)
                implies self.routes(ids@[i].0@).contains_key(link) by {
                assert(g.contains_key(ids@[i].0@));
                assert(old(self).routes(ids@[i].0@).contains_key(link));
            }
        }
        let removed = self.unroute(link, &ids, &keep);
        proof {
            assert forall|q: Seq<char>| unrouted(ids@, reach_of(keep), q) <==> old(self).routes(q).contains_key(link) by {
                if old(self).routes(q).contains_key(link) {
                    assert(g.contains_key(q));
                }
                if seen(ids@, ids@.len() as int, q) {
                    let j = choose|j: int| 0 <= j < ids@.len() && #[trigger] ids@[j].0@ == q;
                    assert(g.contains_key(ids@[j].0@));
                }
            }
            assert forall|q: Seq<char>| #[trigger] self.routes(q) == old(self).routes(q).remove(link) by {
                if !old(self).routes(q).contains_key(link) {
                    assert(old(self).routes(q) =~= old(self).routes(q).remove(link));
                }
            }
            assert forall|q: Seq<char>| #[trigger] self.links_view().contains_key(q) <==> !self.routes(q).is_empty() by {
                if !self.links_view().contains_key(q) {
                    assert(self.routes(q) =~= Map::<usize, usize>::empty());
                }
            }
            assert forall|q: Seq<char>| #[trigger] old(self).links_view().contains_key(q) <==> !old(self).routes(q).is_empty() by {
                if !old(self).links_view().contains_key(q) {
                    assert(old(self).routes(q) =~= Map::<usize, usize>::empty());
                }
            }
            assert(self.best_view().dom() =~= self.links_view().dom());
            let c = self.cache_view();
            assert forall|l: usize, q: Seq<char>|
                heard_on(c, l).contains_key(q) <==> #[trigger] self.routes(q).contains_key(l) by {
                assert(heard_on(old(self).cache_view(), l).contains_key(q) <==> old(self).routes(q).contains_key(l));
            }
            assert forall|l: usize, q: Seq<char>| #[trigger] heard_on(c, l).contains_key(q)
                implies heard_on(c, l)[q] == self.routes(q)[l] by {
                assert(heard_on(old(self).cache_view(), l).contains_key(q));
            }
            assert forall|q: Seq<char>| #[trigger] self.best_view().contains_key(q)
                implies self.links_view()[q].contains_key(self.best_view()[q].0) by {
                if !old(self).routes(q).contains_key(link) {
                    assert(old(self).links_view().contains_key(q));
                }
            }
        }
        removed
    }

    /// Every known agent with the distance of its best route, each once, in
    /// no particular order.
    pub fn peer_table(&self) -> (r: Vec<(AgentId, usize)>)
        ensures
            forall|i: int| 0 <= i < r.len() ==> {
                &&& #[trigger] self.best_view().contains_key(r@[i].0@)
                &&& self.best_view()[r@[i].0@].1 == r@[i].1
            },
            forall|q: Seq<char>| #[trigger] self.best_view().contains_key(q)
                ==> exists|i: int| 0 <= i < r.len() && #[trigger] r@[i].0@ == q,
            forall|i: int, j: int| 0 <= i < j < r.len() ==> r@[i].0@ != r@[j].0@,
    {
        let entries = best_entries(&self.best);
        let mut table: Vec<(AgentId, usize)> = Vec::new();
        let mut i: usize = 0;
        while i < entries.len()
            invariant
                0 <= i <= entries.len(),
                lists_by_name(entries@, self.best_view()),
                table.len() == i,
                forall|j: int| 0 <= j < i ==> #[trigger] table@[j].0@ == entries@[j].0@ && table@[j].1 == entries@[j].1.1,
            decreases entries.len() - i,
        {
            let (id, route) = (entries[i].0.clone(), entries[i].1);
            table.push((id, route.1));
            i = i + 1;
        }
        proof {
            assert forall|q: Seq<char>| #[trigger] self.best_view().contains_key(q)
                implies exists|i: int| 0 <= i < table.len() && #[trigger] table@[i].0@ == q by {
                let j = choose|j: int| 0 <= j < entries@.len() && #[trigger] entries@[j].0@ == q;
                assert(table@[j].0@ == q);
            }
            assert forall|i: int| 0 <= i < table.len() implies {
                &&& #[trigger] self.best_view().contains_key(table@[i].0@)
                &&& self.best_view()[table@[i].0@].1 == table@[i].1
            } by {
                assert(table@[i].0@ == entries@[i].0@);
                assert(self.best_view().contains_key(entries@[i].0@));
            }
            assert forall|i: int, j: int| 0 <= i < j < table.len() implies table@[i].0@ != table@[j].0@ by {
                assert(table@[i].0@ == entries@[i].0@);
                assert(table@[j].0@ == entries@[j].0@);
            }
        }
        table
    }

    /// The link of the best route to `id`, if `id` is known.
    pub fn best_link(&self, id: &AgentId) -> (r: Option<usize>)
        ensures
            r == (if self.best_view().contains_key(id@) { Some(self.best_view()[id@].0) } else { None }),
    {
        match best_get(&self.best, id) {
            Some(b) => Some(b.0),
            None => None,
        }
    }
}

/// An agent has a best route exactly when it has some route, and exactly
/// when some link reports it; a direct peer is reported by its own link.
pub proof fn lemma_known_iff_reported(p: &Peers, id: Seq<char>)
    requires
        p.wf(),
    ensures
        p.best_view().contains_key(id) <==> !p.routes(id).is_empty(),
        p.best_view().contains_key(id) <==> exists|l: usize| #[trigger] heard_on(p.cache_view(), l).contains_key(id),
{
    if p.best_view().contains_key(id) {
        let l = p.best_view()[id].0;
        assert(p.routes(id).contains_key(l));
        assert(heard_on(p.cache_view(), l).contains_key(id));
    } else {
        assert(p.routes(id) =~= Map::<usize, usize>::empty());
    }
}

} // verus!
