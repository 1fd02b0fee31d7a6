//! The query engine: the traversal strategies over a `RouteMap`.
//!
//! All four breadth-first strategies share one expansion primitive,
//! `next_stops`, and are specified against the round-based models of
//! `crate::model`.

use vstd::prelude::*;
use crate::graph::{RouteMap, edges_of, str_eq};
use crate::model::{
    AdjView,
    RouteModel,
    adj_station,
    circ_hits,
    circ_next,
    circ_ok,
    circ_spec,
    count_at,
    count_matches,
    edge_distance,
    expand_frontier,
    expand_route,
    frontier_after,
    frontier_ok,
    init_route,
    lemma_circ_hits_nonneg,
    lemma_circ_spec_nonneg,
    lemma_count_at_nonneg,
    lemma_count_matches_prefix_le,
    lemma_count_matches_push,
    lemma_expand_frontier_ok,
    lemma_expand_route_ok,
    lemma_frontier_after_snoc,
    lemma_path_distance_prefix,
    as_int_opt,
    lemma_expand_route_min,
    lemma_rl_round_nonneg,
    min_dist_ok,
    path_distance,
    positive_distances,
    rl_done,
    rl_round,
    rl_state,
    sr_answer,
    sr_done,
    sr_round,
    sr_state,
    station_dests,
};
use crate::route::{Route, clone_route, clone_stops};
use vstd::arithmetic::mul::lemma_mul_inequality;

verus! {

/// The character sequences of a list of station names.
pub open spec fn stop_views(s: Seq<&str>) -> Seq<Seq<char>> {
    s.map_values(|t: &str| t@)
}

/// The views of a frontier of routes.
pub open spec fn route_views(s: Seq<Route>) -> Seq<RouteModel> {
    s.map_values(|r: Route| r@)
}

/// The character sequences of a list of owned station names.
pub open spec fn names_view(s: Seq<String>) -> Seq<Seq<char>> {
    s.map_values(|t: String| t@)
}

impl RouteMap {
    /// All one-hop extensions of `route`: one new route per outgoing edge of
    /// its current station, with the edge distance added.  A station without
    /// outgoing edges yields no extensions (a dead end, not an error).
    #[verifier::loop_isolation(false)]
    pub fn next_stops(&self, route: Route) -> (res: Vec<Route>)
        requires
            route@.stops.len() >= 1,
            route@.dist <= 0xFFFF_FFFF_0000_0000int,
        ensures
            route_views(res@) == expand_route(self@, route@),
    {
        let mut res: Vec<Route> = Vec::new();
        match self.get_station(route.current_station()) {
            None => {
                proof {
                    assert(route_views(res@) =~= expand_route(self@, route@));
                }
                res
            },
            Some(lst) => {
                let ghost l = edges_of(lst@);
                let mut t: usize = 0;
                while t < lst.len()
                    invariant
                        t <= lst.len(),
                        res@.len() == t,
                        forall|m: int| 0 <= m < t ==> res@[m]@ == expand_route(self@, route@)[m],
                    decreases lst.len() - t,
                {
                    let mut stops = clone_stops(&route.stops);
                    stops.push(lst[t].0.clone());
                    let dist = route.distance + lst[t].1 as u64;
                    let nr = Route { distance: dist, stops };
                    proof {
                        assert(nr@.stops =~= route@.stops.push(l[t as int].0));
                    }
                    res.push(nr);
                    t = t + 1;
                }
                proof {
                    assert(route_views(res@) =~= expand_route(self@, route@));
                }
                res
            },
        }
    }

    /// One full breadth-first round: the extensions of every frontier route,
    /// in order; dead ends contribute nothing.
    #[verifier::loop_isolation(false)]
    fn expand_all(&self, stops: &Vec<Route>) -> (next: Vec<Route>)
        requires
            frontier_ok(route_views(stops@), 0xFFFF_FFFF_0000_0000int),
        ensures
            route_views(next@) == expand_frontier(self@, route_views(stops@)),
    {
        let ghost fv = route_views(stops@);
        let mut next: Vec<Route> = Vec::new();
        let mut p: usize = 0;
        proof {
            assert(fv.skip(0) =~= fv);
            assert(route_views(next@) + expand_frontier(self@, fv) =~= expand_frontier(self@, fv));
        }
        while p < stops.len()
            invariant
                p <= stops.len(),
                expand_frontier(self@, fv) == route_views(next@) + expand_frontier(
                    self@,
                    fv.skip(p as int),
                ),
            decreases stops.len() - p,
        {
            proof {
                assert(fv.skip(p as int)[0] == fv[p as int]);
                assert(fv.skip(p as int).skip(1) =~= fv.skip(p as int + 1));
            }
            let r = clone_route(&stops[p]);
            let mut ext = self.next_stops(r);
            let ghost prev_exec = next@;
            let ghost ext_exec = ext@;
            let ghost next_before = route_views(next@);
            next.append(&mut ext);
            proof {
                assert forall|m: int|
                    0 <= m < route_views(next@).len() implies route_views(next@)[m] == (next_before
                    + expand_route(self@, fv[p as int]))[m] by {
                    if m < next_before.len() {
                        assert(next@[m] == prev_exec[m]);
                    } else {
                        assert(next@[m] == ext_exec[m - prev_exec.len()]);
                        assert(route_views(ext_exec)[m - prev_exec.len()] == expand_route(
                            self@,
                            fv[p as int],
                        )[m - prev_exec.len()]);
                    }
                }
                assert(route_views(next@) =~= next_before + expand_route(self@, fv[p as int]));
                assert((next_before + expand_route(self@, fv[p as int])) + expand_frontier(
                    self@,
                    fv.skip(p as int + 1),
                ) =~= next_before + (expand_route(self@, fv[p as int]) + expand_frontier(
                    self@,
                    fv.skip(p as int + 1),
                )));
            }
            p = p + 1;
        }
        proof {
            assert(fv.skip(stops@.len() as int) =~= Seq::<RouteModel>::empty());
            assert(route_views(next@) + Seq::<RouteModel>::empty() =~= route_views(next@));
        }
        next
    }

    /// One round of the circular count: expand every frontier station to
    /// all of its destinations, counting the arrivals back at `start`.
    /// `None` when a frontier station has no outgoing edges, or when the
    /// hits of this round alone already exceed what a count can report.
    #[verifier::loop_isolation(false)]
    fn circ_round(&self, frontier: &Vec<String>, start: &str) -> (r: Option<(Vec<String>, u64)>)
        ensures
            match r {
                None => !circ_ok(self@, names_view(frontier@)) || circ_hits(
                    self@,
                    names_view(frontier@),
                    start@,
                ) > u32::MAX as int,
                Some(pair) => {
                    let fv = names_view(frontier@);
                    &&& circ_ok(self@, fv)
                    &&& names_view(pair.0@) == circ_next(self@, fv)
                    &&& pair.1 as int == circ_hits(self@, fv, start@)
                    &&& pair.1 <= u32::MAX as u64
                },
            },
    {
        let ghost fv = names_view(frontier@);
        let mut next: Vec<String> = Vec::new();
        let mut hits: u64 = 0;
        let mut p: usize = 0;
        proof {
            assert(fv.skip(0) =~= fv);
            assert(names_view(next@) + circ_next(self@, fv) =~= circ_next(self@, fv));
        }
        while p < frontier.len()
            invariant
                p <= frontier.len(),
                forall|m: int| 0 <= m < p ==> adj_station(self@, fv[m]) is Some,
                circ_next(self@, fv) == names_view(next@) + circ_next(self@, fv.skip(p as int)),
                circ_hits(self@, fv, start@) == hits + circ_hits(self@, fv.skip(p as int), start@),
                hits <= u32::MAX as u64,
            decreases frontier.len() - p,
        {
            let ghost rest = fv.skip(p as int);
            proof {
                assert(rest[0] == fv[p as int]);
                assert(rest.skip(1) =~= fv.skip(p as int + 1));
            }
            match self.get_station(frontier[p].as_str()) {
                None => {
                    proof {
                        assert(!circ_ok(self@, fv));
                    }
                    return None;
                },
                Some(lst) => {
                    let ghost dests = station_dests(self@, fv[p as int]);
                    let ghost next0 = names_view(next@);
                    let ghost hits0 = hits as int;
                    proof {
                        assert(dests.take(0) =~= Seq::<Seq<char>>::empty());
                        assert(next0 + dests.take(0) =~= next0);
                    }
                    let mut q: usize = 0;
                    while q < lst.len()
                        invariant
                            q <= lst.len(),
                            dests.len() == lst@.len(),
                            names_view(next@) == next0 + dests.take(q as int),
                            hits as int == hits0 + count_matches(dests.take(q as int), start@),
                            hits <= u32::MAX as u64,
                        decreases lst.len() - q,
                    {
                        let dst = lst[q].0.clone();
                        let is_hit = str_eq(dst.as_str(), start);
                        let ghost dvv = dst@;
                        let ghost prev_next = next@;
                        proof {
                            assert(dests[q as int] == lst@[q as int].0@);
                            assert(dvv == dests[q as int]);
                            assert(dests.take(q as int + 1) =~= dests.take(q as int).push(
                                dests[q as int],
                            ));
                            lemma_count_matches_push(dests.take(q as int), start@, dests[q as int]);
                        }
                        next.push(dst);
                        proof {
                            assert(next@.len() == prev_next.len() + 1);
                            assert(next@[prev_next.len() as int]@ == dvv);
                            assert forall|m: int|
                                0 <= m < names_view(next@).len() implies names_view(next@)[m] == (
                            next0 + dests.take(q as int + 1))[m] by {
                                if m < prev_next.len() {
                                    assert(next@[m] == prev_next[m]);
                                    assert(names_view(prev_next)[m] == (next0 + dests.take(
                                        q as int,
                                    ))[m]);
                                } else {
                                    assert(names_view(next@)[m] == dvv);
                                }
                            }
                            assert(names_view(next@) =~= next0 + dests.take(q as int + 1));
                        }
                        if is_hit {
                            hits = hits + 1;
                            if hits > u32::MAX as u64 {
                                proof {
                                    lemma_count_matches_prefix_le(dests, start@, q as int + 1);
                                    assert(count_matches(dests, start@) >= hits - hits0);
                                    lemma_circ_hits_nonneg(self@, fv.skip(p as int + 1), start@);
                                    assert(circ_hits(self@, fv, start@) > u32::MAX as int);
                                }
                                return None;
                            }
                        }
                        q = q + 1;
                    }
                    proof {
                        assert(dests.take(lst@.len() as int) =~= dests);
                        assert((next0 + dests) + circ_next(self@, fv.skip(p as int + 1)) =~= next0
                            + (dests + circ_next(self@, fv.skip(p as int + 1))));
                    }
                    p = p + 1;
                },
            }
        }
        proof {
            assert(fv.skip(frontier@.len() as int) =~= Seq::<Seq<char>>::empty());
            assert(names_view(next@) + Seq::<Seq<char>>::empty() =~= names_view(next@));
        }
        Some((next, hits))
    }

    /// Count, over exactly `max_stops` rounds of breadth-first expansion
    /// from `start`, how often an expansion arrives back at `start`.  A
    /// station without outgoing edges anywhere in the fan-out aborts the
    /// whole count with "no such route" (unlike the other queries, which
    /// silently drop dead ends); a count beyond `u32::MAX` cannot be
    /// reported and is also "no such route".
    #[verifier::loop_isolation(false)]
    pub fn circular_route(&self, start: &str, max_stops: u32) -> (r: Option<u32>)
        ensures
            match circ_spec(self@, start@, seq![start@], max_stops as nat) {
                None => r is None,
                Some(c) => (c <= u32::MAX as int ==> r == Some(c as u32)) && (c > u32::MAX as int
                    ==> r is None),
            },
    {
        let ghost f0: Seq<Seq<char>> = seq![start@];
        let mut frontier: Vec<String> = Vec::new();
        frontier.push(start.to_owned());
        proof {
            assert(names_view(frontier@) =~= f0);
            lemma_circ_spec_nonneg(self@, start@, f0, max_stops as nat);
        }
        let mut made: u32 = 0;
        let mut count: u64 = 0;
        while made < max_stops
            invariant
                made <= max_stops,
                count <= u32::MAX as u64,
                (match circ_spec(
                    self@,
                    start@,
                    names_view(frontier@),
                    (max_stops - made) as nat,
                ) {
                    None => circ_spec(self@, start@, f0, max_stops as nat) is None,
                    Some(c) => c >= 0 && circ_spec(self@, start@, f0, max_stops as nat) == Some(
                        count + c,
                    ),
                }),
            decreases max_stops - made,
        {
            let ghost fv = names_view(frontier@);
            let ghost rem = (max_stops - made) as nat;
            proof {
                lemma_circ_spec_nonneg(self@, start@, circ_next(self@, fv), (rem - 1) as nat);
                lemma_circ_hits_nonneg(self@, fv, start@);
            }
            match self.circ_round(&frontier, start) {
                None => {
                    return None;
                },
                Some(pair) => {
                    let (next, hits) = pair;
                    if hits > u32::MAX as u64 - count {
                        // the total can only grow further: it cannot be
                        // reported as a u32 count.
                        return None;
                    }
                    count = count + hits;
                    if count > u32::MAX as u64 {
                        return None;
                    }
                    frontier = next;
                    made = made + 1;
                },
            }
        }
        proof {
            assert(circ_spec(self@, start@, names_view(frontier@), 0) == Some(0int));
        }
        Some(count as u32)
    }

    /// Count the routes from `start` that stand at `destination` after
    /// exactly `target_stops` further rounds beyond the first expansion.
    /// Dead ends silently vanish from the frontier; a count beyond
    /// `u32::MAX` cannot be reported and becomes "no such route".
    #[verifier::loop_isolation(false)]
    pub fn exact_stops(&self, start: &str, destination: &str, target_stops: u32) -> (r: Option<
        u32,
    >)
        ensures
            ({
                let c = count_at(
                    frontier_after(
                        self@,
                        expand_route(self@, init_route(start@)),
                        target_stops as nat,
                    ),
                    destination@,
                );
                (c <= u32::MAX as int ==> r == Some(c as u32)) && (c > u32::MAX as int ==> r
                    is None)
            }),
    {
        let mut sv: Vec<String> = Vec::new();
        sv.push(start.to_owned());
        let start_route = Route { distance: 0, stops: sv };
        proof {
            assert(start_route@.stops =~= seq![start@]);
            assert(start_route@ == init_route(start@));
        }
        let ghost f0 = expand_route(self@, init_route(start@));
        let mut stops = self.next_stops(start_route);
        proof {
            lemma_expand_route_ok(self@, init_route(start@), 0);
        }
        let mut made: u32 = 0;
        while made < target_stops
            invariant
                made <= target_stops,
                route_views(stops@) == frontier_after(self@, f0, made as nat),
                frontier_ok(route_views(stops@), (made as int + 1) * (u32::MAX as int)),
            decreases target_stops - made,
        {
            proof {
                lemma_mul_inequality(made as int + 1, 0x1_0000_0000int, u32::MAX as int);
                assert(0x1_0000_0000int * (u32::MAX as int) == 0xFFFF_FFFF_0000_0000int)
                    by (nonlinear_arith);
                assert(frontier_ok(route_views(stops@), 0xFFFF_FFFF_0000_0000int));
            }
            let next = self.expand_all(&stops);
            proof {
                lemma_expand_frontier_ok(
                    self@,
                    route_views(stops@),
                    (made as int + 1) * (u32::MAX as int),
                );
                lemma_frontier_after_snoc(self@, f0, made as nat);
                assert((made as int + 2) * (u32::MAX as int) == (made as int + 1) * (
                u32::MAX as int) + u32::MAX as int) by (nonlinear_arith);
            }
            stops = next;
            made = made + 1;
        }
        let ghost fin = route_views(stops@);
        let mut count: u64 = 0;
        let mut p: usize = 0;
        proof {
            assert(fin.skip(0) =~= fin);
        }
        while p < stops.len()
            invariant
                p <= stops.len(),
                count_at(fin, destination@) == count + count_at(fin.skip(p as int), destination@),
                count <= u32::MAX as u64,
            decreases stops.len() - p,
        {
            proof {
                assert(fin.skip(p as int)[0] == fin[p as int]);
                assert(fin.skip(p as int).skip(1) =~= fin.skip(p as int + 1));
            }
            if str_eq(stops[p].current_station(), destination) {
                count = count + 1;
                if count > u32::MAX as u64 {
                    proof {
                        lemma_count_at_nonneg(fin.skip(p as int + 1), destination@);
                    }
                    return None;
                }
            }
            p = p + 1;
        }
        proof {
            assert(fin.skip(stops@.len() as int) =~= Seq::<RouteModel>::empty());
        }
        Some(count as u32)
    }

    /// Distance of the shortest route from `start` to `destination` of at
    /// least one hop, found by pruned breadth-first search: a frontier route
    /// already no shorter than the best completed distance is dropped, one
    /// standing at `destination` becomes the new best and is not expanded.
    /// The contract speaks for graphs whose edges all have positive
    /// distance; on others (out of contract) the search is cut off and
    /// nothing is promised.
    #[verifier::loop_isolation(false)]
    pub fn shortest_route(&self, start: &str, destination: &str) -> (r: Option<u32>)
        ensures
            positive_distances(self@) ==> exists|k: nat|
                #[trigger] sr_done(
                    self@,
                    destination@,
                    expand_route(self@, init_route(start@)),
                    k,
                ) && as_int_opt(r) == sr_answer(
                    self@,
                    destination@,
                    expand_route(self@, init_route(start@)),
                    k,
                ),
    {
        let ghost g = self@;
        let ghost dv = destination@;
        let ghost f0 = expand_route(g, init_route(start@));
        let mut sv: Vec<String> = Vec::new();
        sv.push(start.to_owned());
        let start_route = Route { distance: 0, stops: sv };
        proof {
            assert(start_route@.stops =~= seq![start@]);
            assert(start_route@ == init_route(start@));
            lemma_expand_route_ok(g, init_route(start@), 0);
            if positive_distances(g) {
                lemma_expand_route_min(g, init_route(start@), 0);
            }
        }
        let mut stops = self.next_stops(start_route);
        let mut best: u64 = 0xFFFF_FFFF;
        let mut rounds: u64 = 0;
        while stops.len() > 0 && rounds < 0x2_0000_0000
            invariant
                rounds <= 0x2_0000_0000,
                best <= 0xFFFF_FFFF,
                (route_views(stops@), best as int) == sr_state(g, dv, f0, rounds as nat),
                frontier_ok(route_views(stops@), 0x1_FFFF_FFFEint),
                positive_distances(g) ==> min_dist_ok(route_views(stops@), rounds as int + 1),
            decreases 0x2_0000_0000 - rounds,
        {
            let ghost fv = route_views(stops@);
            let ghost best0 = best as int;
            let mut next: Vec<Route> = Vec::new();
            let mut p: usize = 0;
            proof {
                assert(fv.skip(0) =~= fv);
                assert(route_views(next@) + sr_round(g, dv, fv, best0).0 =~= sr_round(
                    g,
                    dv,
                    fv,
                    best0,
                ).0);
            }
            while p < stops.len()
                invariant
                    p <= stops.len(),
                    best <= 0xFFFF_FFFF,
                    sr_round(g, dv, fv, best0) == (
                        route_views(next@) + sr_round(g, dv, fv.skip(p as int), best as int).0,
                        sr_round(g, dv, fv.skip(p as int), best as int).1,
                    ),
                    frontier_ok(route_views(next@), 0x1_FFFF_FFFEint),
                    positive_distances(g) ==> min_dist_ok(route_views(next@), rounds as int + 2),
                decreases stops.len() - p,
            {
                proof {
                    assert(fv.skip(p as int)[0] == fv[p as int]);
                    assert(fv.skip(p as int).skip(1) =~= fv.skip(p as int + 1));
                }
                let cur = &stops[p];
                if cur.distance < best {
                    if str_eq(cur.current_station(), destination) {
                        best = cur.distance;
                    } else {
                        let mut ext = self.next_stops(clone_route(cur));
                        let ghost prev_exec = next@;
                        let ghost ext_exec = ext@;
                        let ghost next_before = route_views(next@);
                        next.append(&mut ext);
                        proof {
                            assert forall|m: int|
                                0 <= m < route_views(next@).len() implies route_views(next@)[m] == (
                            next_before + expand_route(g, fv[p as int]))[m] by {
                                if m < next_before.len() {
                                    assert(next@[m] == prev_exec[m]);
                                } else {
                                    assert(next@[m] == ext_exec[m - prev_exec.len()]);
                                    assert(route_views(ext_exec)[m - prev_exec.len()]
                                        == expand_route(g, fv[p as int])[m - prev_exec.len()]);
                                }
                            }
                            assert(route_views(next@) =~= next_before + expand_route(
                                g,
                                fv[p as int],
                            ));
                            lemma_expand_route_ok(g, fv[p as int], best as int - 1);
                            if positive_distances(g) {
                                lemma_expand_route_min(g, fv[p as int], rounds as int + 1);
                            }
                            let rest = sr_round(g, dv, fv.skip(p as int + 1), best as int);
                            assert((next_before + expand_route(g, fv[p as int])) + rest.0 =~= (
                            next_before + (expand_route(g, fv[p as int]) + rest.0)));
                        }
                    }
                }
                p = p + 1;
            }
            proof {
                assert(fv.skip(stops@.len() as int) =~= Seq::<RouteModel>::empty());
                assert(route_views(next@) + Seq::<RouteModel>::empty() =~= route_views(next@));
                assert(sr_round(g, dv, fv, best0) == (route_views(next@), best as int));
                assert(sr_state(g, dv, f0, (rounds + 1) as nat) == sr_round(
                    g,
                    dv,
                    sr_state(g, dv, f0, rounds as nat).0,
                    sr_state(g, dv, f0, rounds as nat).1,
                ));
            }
            stops = next;
            rounds = rounds + 1;
        }
        if stops.len() == 0 {
            proof {
                assert(sr_done(g, dv, f0, rounds as nat));
            }
            if best == 0xFFFF_FFFF {
                None
            } else {
                Some(best as u32)
            }
        } else {
            proof {
                if positive_distances(g) {
                    assert(route_views(stops@)[0].dist >= rounds + 1);
                    assert(false);
                }
            }
            None
        }
    }

    /// Count the routes from `start` to `destination` of at least one hop
    /// whose distance stays strictly below `max_distance`.  Reaching the
    /// destination is not terminal: routes are expanded onwards, so cycles
    /// through the destination are counted again as long as they stay under
    /// the ceiling.  The contract speaks for graphs whose edges all have
    /// positive distance; on others (out of contract) the search is cut off
    /// and nothing is promised.  A count beyond `u32::MAX` cannot be
    /// reported and becomes "no such route".
    #[verifier::loop_isolation(false)]
    pub fn routes_less_than(&self, start: &str, destination: &str, max_distance: u32) -> (r:
        Option<u32>)
        ensures
            positive_distances(self@) ==> ((exists|k: nat|
                #[trigger] rl_done(
                    self@,
                    destination@,
                    max_distance as int,
                    expand_route(self@, init_route(start@)),
                    k,
                ) && ({
                    let c = rl_state(
                        self@,
                        destination@,
                        max_distance as int,
                        expand_route(self@, init_route(start@)),
                        k,
                    ).1;
                    (c <= u32::MAX as int ==> r == Some(c as u32)) && (c > u32::MAX as int ==> r
                        is None)
                })) || (r is None && exists|k: nat|
                (#[trigger] rl_state(
                    self@,
                    destination@,
                    max_distance as int,
                    expand_route(self@, init_route(start@)),
                    k,
                )).1 > u32::MAX as int)),
    {
        let ghost g = self@;
        let ghost dv = destination@;
        let ghost ceiling = max_distance as int;
        let ghost f0 = expand_route(g, init_route(start@));
        let mut sv: Vec<String> = Vec::new();
        sv.push(start.to_owned());
        let start_route = Route { distance: 0, stops: sv };
        proof {
            assert(start_route@.stops =~= seq![start@]);
            assert(start_route@ == init_route(start@));
            lemma_expand_route_ok(g, init_route(start@), 0);
            if positive_distances(g) {
                lemma_expand_route_min(g, init_route(start@), 0);
            }
        }
        let mut stops = self.next_stops(start_route);
        let mut count: u64 = 0;
        let mut rounds: u64 = 0;
        while stops.len() > 0 && rounds < 0x2_0000_0000
            invariant
                rounds <= 0x2_0000_0000,
                count <= u32::MAX as u64,
                (route_views(stops@), count as int) == rl_state(g, dv, ceiling, f0, rounds as nat),
                frontier_ok(route_views(stops@), 0x1_FFFF_FFFEint),
                positive_distances(g) ==> min_dist_ok(route_views(stops@), rounds as int + 1),
            decreases 0x2_0000_0000 - rounds,
        {
            let ghost fv = route_views(stops@);
            let ghost count0 = count as int;
            let mut next: Vec<Route> = Vec::new();
            let mut p: usize = 0;
            proof {
                assert(fv.skip(0) =~= fv);
                assert(route_views(next@) + rl_round(g, dv, ceiling, fv).0 =~= rl_round(
                    g,
                    dv,
                    ceiling,
                    fv,
                ).0);
            }
            while p < stops.len()
                invariant
                    p <= stops.len(),
                    count <= u32::MAX as u64,
                    count0 <= count as int,
                    rl_round(g, dv, ceiling, fv) == (
                        route_views(next@) + rl_round(g, dv, ceiling, fv.skip(p as int)).0,
                        (count - count0) + rl_round(g, dv, ceiling, fv.skip(p as int)).1,
                    ),
                    frontier_ok(route_views(next@), 0x1_FFFF_FFFEint),
                    positive_distances(g) ==> min_dist_ok(route_views(next@), rounds as int + 2),
                decreases stops.len() - p,
            {
                proof {
                    assert(fv.skip(p as int)[0] == fv[p as int]);
                    assert(fv.skip(p as int).skip(1) =~= fv.skip(p as int + 1));
                }
                let cur = &stops[p];
                if cur.distance < max_distance as u64 {
                    if str_eq(cur.current_station(), destination) {
                        count = count + 1;
                        if count > u32::MAX as u64 {
                            proof {
                                lemma_rl_round_nonneg(g, dv, ceiling, fv.skip(p as int + 1));
                                assert(rl_round(g, dv, ceiling, fv).1 >= count - count0);
                                assert(rl_state(g, dv, ceiling, f0, (rounds + 1) as nat).1
                                    > u32::MAX as int);
                            }
                            return None;
                        }
                    }
                    let mut ext = self.next_stops(clone_route(cur));
                    let ghost prev_exec = next@;
                    let ghost ext_exec = ext@;
                    let ghost next_before = route_views(next@);
                    next.append(&mut ext);
                    proof {
                        assert forall|m: int|
                            0 <= m < route_views(next@).len() implies route_views(next@)[m] == (
                        next_before + expand_route(g, fv[p as int]))[m] by {
                            if m < next_before.len() {
                                assert(next@[m] == prev_exec[m]);
                            } else {
                                assert(next@[m] == ext_exec[m - prev_exec.len()]);
                                assert(route_views(ext_exec)[m - prev_exec.len()] == expand_route(
                                    g,
                                    fv[p as int],
                                )[m - prev_exec.len()]);
                            }
                        }
                        assert(route_views(next@) =~= next_before + expand_route(g, fv[p as int]));
                        lemma_expand_route_ok(g, fv[p as int], ceiling - 1);
                        if positive_distances(g) {
                            lemma_expand_route_min(g, fv[p as int], rounds as int + 1);
                        }
                        let rest = rl_round(g, dv, ceiling, fv.skip(p as int + 1));
                        assert((next_before + expand_route(g, fv[p as int])) + rest.0 =~= (
                        next_before + (expand_route(g, fv[p as int]) + rest.0)));
                    }
                }
                p = p + 1;
            }
            proof {
                assert(fv.skip(stops@.len() as int) =~= Seq::<RouteModel>::empty());
                assert(route_views(next@) + Seq::<RouteModel>::empty() =~= route_views(next@));
                assert(rl_round(g, dv, ceiling, fv) == (route_views(next@), count - count0));
                assert(rl_state(g, dv, ceiling, f0, (rounds + 1) as nat).0 == rl_round(
                    g,
                    dv,
                    ceiling,
                    rl_state(g, dv, ceiling, f0, rounds as nat).0,
                ).0);
            }
            stops = next;
            rounds = rounds + 1;
        }
        if stops.len() == 0 {
            proof {
                assert(rl_done(g, dv, ceiling, f0, rounds as nat));
            }
            Some(count as u32)
        } else {
            proof {
                if positive_distances(g) {
                    assert(route_views(stops@)[0].dist >= rounds + 1);
                    assert(false);
                }
            }
            None
        }
    }

    /// Distance of a literal path through the given stops: the sum of the
    /// single-hop distances of its consecutive pairs.  `None` as soon as
    /// some consecutive pair has no edge, and for the (unreportable) case of
    /// a total beyond `u32::MAX`; a path of at most one stop has distance 0.
    #[verifier::loop_isolation(false)]
    pub fn route_distance(&self, stops: &[&str]) -> (r: Option<u32>)
        ensures
            match path_distance(self@, stop_views(stops@)) {
                None => r is None,
                Some(d) => (d <= u32::MAX as int ==> r == Some(d as u32)) && (d > u32::MAX as int
                    ==> r is None),
            },
    {
        let ghost sv = stop_views(stops@);
        if stops.len() == 0 {
            return Some(0);
        }
        let mut dist: u64 = 0;
        let mut i: usize = 1;
        proof {
            assert(path_distance(self@, sv.take(1)) == Some(0int));
        }
        while i < stops.len()
            invariant
                1 <= i <= stops.len(),
                path_distance(self@, sv.take(i as int)) == Some(dist as int),
                dist <= u32::MAX as u64,
            decreases stops.len() - i,
        {
            match self.lookup(stops[i - 1], stops[i]) {
                None => {
                    proof {
                        assert(sv.take(i as int + 1).take(i as int) =~= sv.take(i as int));
                        assert(edge_distance(self@, sv[i as int - 1], sv[i as int]) is None);
                        assert(path_distance(self@, sv.take(i as int + 1)) is None);
                        lemma_path_distance_prefix(self@, sv, i as int + 1);
                    }
                    return None;
                },
                Some(w) => {
                    let nd = dist + w as u64;
                    proof {
                        assert(sv.take(i as int + 1).take(i as int) =~= sv.take(i as int));
                        assert(path_distance(self@, sv.take(i as int + 1)) == Some(
                            dist + w as int,
                        ));
                    }
                    if nd > u32::MAX as u64 {
                        proof {
                            lemma_path_distance_prefix(self@, sv, i as int + 1);
                        }
                        return None;
                    }
                    dist = nd;
                    i = i + 1;
                },
            }
        }
        proof {
            assert(sv.take(stops@.len() as int) =~= sv);
        }
        Some(dist as u32)
    }
}

} // verus!
