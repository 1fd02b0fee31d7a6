//! The mathematical model of the station graph.
//!
//! A graph is viewed as an ordered association list: a sequence of
//! `(origin, outgoing edges)` entries, where the outgoing edges of an origin
//! are themselves a sequence of `(destination, distance)` pairs.  Lookups
//! take the first entry whose key matches, scanning from the front.

use vstd::prelude::*;

verus! {

/// The view of a graph: for each origin station (a sequence of characters),
/// its ordered list of `(destination, distance)` edges.
pub type AdjView = Seq<(Seq<char>, Seq<(Seq<char>, u32)>)>;

/// The view of one station's outgoing edges.
pub type EdgesView = Seq<(Seq<char>, u32)>;

/// First edge of `l` whose destination is `d`, scanning from the front.
pub open spec fn edges_lookup(l: EdgesView, d: Seq<char>) -> Option<u32>
    decreases l.len(),
{
    if l.len() == 0 {
        None
    } else if l[0].0 == d {
        Some(l[0].1)
    } else {
        edges_lookup(l.skip(1), d)
    }
}

/// The outgoing-edge list of station `s`, or `None` if `s` has none.
pub open spec fn adj_station(g: AdjView, s: Seq<char>) -> Option<EdgesView>
    decreases g.len(),
{
    if g.len() == 0 {
        None
    } else if g[0].0 == s {
        Some(g[0].1)
    } else {
        adj_station(g.skip(1), s)
    }
}

/// Single-hop distance from `o` to `d`, or `None` if no such edge exists.
pub open spec fn edge_distance(g: AdjView, o: Seq<char>, d: Seq<char>) -> Option<u32> {
    match adj_station(g, o) {
        None => None,
        Some(l) => edges_lookup(l, d),
    }
}

/// Overwrite the first edge to `d` in `l` with distance `w`, or append a new
/// edge if none exists (last write wins, as in a map insertion).
pub open spec fn edges_insert(l: EdgesView, d: Seq<char>, w: u32) -> EdgesView
    decreases l.len(),
{
    if l.len() == 0 {
        seq![(d, w)]
    } else if l[0].0 == d {
        seq![(d, w)] + l.skip(1)
    } else {
        seq![l[0]] + edges_insert(l.skip(1), d, w)
    }
}

/// Insert the edge `o -> d` with distance `w` into the graph, keeping the
/// position of an already-known origin and appending a new one at the end.
pub open spec fn adj_insert(g: AdjView, o: Seq<char>, d: Seq<char>, w: u32) -> AdjView
    decreases g.len(),
{
    if g.len() == 0 {
        seq![(o, seq![(d, w)])]
    } else if g[0].0 == o {
        seq![(o, edges_insert(g[0].1, d, w))] + g.skip(1)
    } else {
        seq![g[0]] + adj_insert(g.skip(1), o, d, w)
    }
}

/// The graph built by inserting the given `(origin, destination, distance)`
/// triples in order into the empty graph.
pub open spec fn build_adj(edges: Seq<(Seq<char>, Seq<char>, u32)>) -> AdjView
    decreases edges.len(),
{
    if edges.len() == 0 {
        Seq::empty()
    } else {
        let prefix = build_adj(edges.take(edges.len() - 1));
        let e = edges[edges.len() - 1];
        adj_insert(prefix, e.0, e.1, e.2)
    }
}

/// Every edge of the graph has a strictly positive distance.  The searching
/// queries rely on this to terminate (see the crate's query contracts).
pub open spec fn positive_distances(g: AdjView) -> bool {
    forall|i: int, j: int|
        0 <= i < g.len() && 0 <= j < g[i].1.len() ==> #[trigger] g[i].1[j].1 >= 1
}

/// Accumulated distance of a fixed path through the graph: the sum of the
/// single-hop distances of its consecutive pairs, or `None` as soon as a
/// pair has no edge.  A path of at most one station has distance 0.
pub open spec fn path_distance(g: AdjView, stops: Seq<Seq<char>>) -> Option<int>
    decreases stops.len(),
{
    if stops.len() <= 1 {
        Some(0int)
    } else {
        let prefix = path_distance(g, stops.take(stops.len() - 1));
        let hop = edge_distance(g, stops[stops.len() - 2], stops[stops.len() - 1]);
        if prefix is Some && hop is Some {
            Some(prefix->Some_0 + hop->Some_0)
        } else {
            None
        }
    }
}

/// A partial route of a traversal: the stations visited so far (first is the
/// query start, last is the current position) and the accumulated distance.
pub struct RouteModel {
    pub stops: Seq<Seq<char>>,
    pub dist: int,
}

/// The one-station route a traversal starts from.
pub open spec fn init_route(start: Seq<char>) -> RouteModel {
    RouteModel { stops: seq![start], dist: 0 }
}

/// All one-hop extensions of a partial route, in the order of the station's
/// outgoing edge list; none if the current station has no outgoing edges.
pub open spec fn expand_route(g: AdjView, r: RouteModel) -> Seq<RouteModel> {
    match adj_station(g, r.stops.last()) {
        None => Seq::empty(),
        Some(l) => Seq::new(
            l.len(),
            |j: int| RouteModel { stops: r.stops.push(l[j].0), dist: r.dist + l[j].1 },
        ),
    }
}

/// One breadth-first round: every route of the frontier is expanded, in
/// order, and dead ends simply vanish.
pub open spec fn expand_frontier(g: AdjView, f: Seq<RouteModel>) -> Seq<RouteModel>
    decreases f.len(),
{
    if f.len() == 0 {
        Seq::empty()
    } else {
        expand_route(g, f[0]) + expand_frontier(g, f.skip(1))
    }
}

/// The frontier after `n` breadth-first rounds.
pub open spec fn frontier_after(g: AdjView, f: Seq<RouteModel>, n: nat) -> Seq<RouteModel>
    decreases n,
{
    if n == 0 {
        f
    } else {
        frontier_after(g, expand_frontier(g, f), (n - 1) as nat)
    }
}

/// How many routes of `f` currently stand at `dest`.
pub open spec fn count_at(f: Seq<RouteModel>, dest: Seq<char>) -> int
    decreases f.len(),
{
    if f.len() == 0 {
        0
    } else {
        (if f[0].stops.last() == dest {
            1int
        } else {
            0int
        }) + count_at(f.skip(1), dest)
    }
}

/// Every route of `f` has at least one stop and a distance within `[0, b]`.
pub open spec fn frontier_ok(f: Seq<RouteModel>, b: int) -> bool {
    forall|i: int|
        0 <= i < f.len() ==> (#[trigger] f[i]).stops.len() >= 1 && 0 <= f[i].dist <= b
}

/// The destinations directly reachable from `s`, in edge-list order.
pub open spec fn station_dests(g: AdjView, s: Seq<char>) -> Seq<Seq<char>> {
    match adj_station(g, s) {
        None => Seq::empty(),
        Some(l) => l.map_values(|p: (Seq<char>, u32)| p.0),
    }
}

/// How many entries of `l` equal `t`.
pub open spec fn count_matches(l: Seq<Seq<char>>, t: Seq<char>) -> int
    decreases l.len(),
{
    if l.len() == 0 {
        0
    } else {
        count_matches(l.take(l.len() - 1), t) + (if l.last() == t {
            1int
        } else {
            0int
        })
    }
}

/// Every station of the circular-count frontier has outgoing edges.
pub open spec fn circ_ok(g: AdjView, f: Seq<Seq<char>>) -> bool {
    forall|i: int| 0 <= i < f.len() ==> adj_station(g, #[trigger] f[i]) is Some
}

/// The next circular-count frontier: the destinations of every frontier
/// station, in order.
pub open spec fn circ_next(g: AdjView, f: Seq<Seq<char>>) -> Seq<Seq<char>>
    decreases f.len(),
{
    if f.len() == 0 {
        Seq::empty()
    } else {
        station_dests(g, f[0]) + circ_next(g, f.skip(1))
    }
}

/// How often a round's expansion reaches `start` again.
pub open spec fn circ_hits(g: AdjView, f: Seq<Seq<char>>, start: Seq<char>) -> int
    decreases f.len(),
{
    if f.len() == 0 {
        0
    } else {
        count_matches(station_dests(g, f[0]), start) + circ_hits(g, f.skip(1), start)
    }
}

/// The circular count over `n` rounds from frontier `f`: the number of times
/// an expansion reaches `start`, or `None` as soon as any frontier station
/// anywhere in the fan-out has no outgoing edges (a dead end aborts this
/// query as a whole).
pub open spec fn circ_spec(g: AdjView, start: Seq<char>, f: Seq<Seq<char>>, n: nat) -> Option<int>
    decreases n,
{
    if n == 0 {
        Some(0int)
    } else if !circ_ok(g, f) {
        None
    } else {
        match circ_spec(g, start, circ_next(g, f), (n - 1) as nat) {
            None => None,
            Some(c) => Some(c + circ_hits(g, f, start)),
        }
    }
}

/// One round of the shortest-route search, processing the frontier in
/// order with running best distance `best`: a route at distance `>= best`
/// is dropped; one standing at `dest` becomes the new best and is not
/// expanded; any other is expanded into the next frontier.
pub open spec fn sr_round(g: AdjView, dest: Seq<char>, f: Seq<RouteModel>, best: int) -> (
    Seq<RouteModel>,
    int,
)
    decreases f.len(),
{
    if f.len() == 0 {
        (Seq::empty(), best)
    } else if f[0].dist < best {
        if f[0].stops.last() == dest {
            sr_round(g, dest, f.skip(1), f[0].dist)
        } else {
            let rest = sr_round(g, dest, f.skip(1), best);
            (expand_route(g, f[0]) + rest.0, rest.1)
        }
    } else {
        sr_round(g, dest, f.skip(1), best)
    }
}

/// The shortest-route search state after `k` rounds, starting from frontier
/// `f0` with the best distance at its "infinite" sentinel.
pub open spec fn sr_state(g: AdjView, dest: Seq<char>, f0: Seq<RouteModel>, k: nat) -> (
    Seq<RouteModel>,
    int,
)
    decreases k,
{
    if k == 0 {
        (f0, u32::MAX as int)
    } else {
        let prev = sr_state(g, dest, f0, (k - 1) as nat);
        sr_round(g, dest, prev.0, prev.1)
    }
}

/// The search has finished after `k` rounds: its frontier is empty.
pub open spec fn sr_done(g: AdjView, dest: Seq<char>, f0: Seq<RouteModel>, k: nat) -> bool {
    sr_state(g, dest, f0, k).0.len() == 0
}

/// The answer of a finished search: the best distance, or `None` if it
/// stayed at the sentinel.
pub open spec fn sr_answer(g: AdjView, dest: Seq<char>, f0: Seq<RouteModel>, k: nat) -> Option<
    int,
> {
    let b = sr_state(g, dest, f0, k).1;
    if b == u32::MAX as int {
        None
    } else {
        Some(b)
    }
}

/// One round of the distance-bounded count: a route at distance `>= ceiling`
/// is dropped without expansion; any other counts one hit when it stands at
/// `dest` and is always expanded further (reaching `dest` is not terminal).
pub open spec fn rl_round(g: AdjView, dest: Seq<char>, ceiling: int, f: Seq<RouteModel>) -> (
    Seq<RouteModel>,
    int,
)
    decreases f.len(),
{
    if f.len() == 0 {
        (Seq::empty(), 0int)
    } else {
        let rest = rl_round(g, dest, ceiling, f.skip(1));
        if f[0].dist < ceiling {
            let hit: int = if f[0].stops.last() == dest {
                1
            } else {
                0
            };
            (expand_route(g, f[0]) + rest.0, hit + rest.1)
        } else {
            rest
        }
    }
}

/// The distance-bounded count state after `k` rounds: the current frontier
/// and the hits counted so far.
pub open spec fn rl_state(
    g: AdjView,
    dest: Seq<char>,
    ceiling: int,
    f0: Seq<RouteModel>,
    k: nat,
) -> (Seq<RouteModel>, int)
    decreases k,
{
    if k == 0 {
        (f0, 0int)
    } else {
        let prev = rl_state(g, dest, ceiling, f0, (k - 1) as nat);
        let r = rl_round(g, dest, ceiling, prev.0);
        (r.0, prev.1 + r.1)
    }
}

/// The count has finished after `k` rounds: its frontier is empty.
pub open spec fn rl_done(
    g: AdjView,
    dest: Seq<char>,
    ceiling: int,
    f0: Seq<RouteModel>,
    k: nat,
) -> bool {
    rl_state(g, dest, ceiling, f0, k).0.len() == 0
}

pub proof fn lemma_count_matches_nonneg(l: Seq<Seq<char>>, t: Seq<char>)
    ensures
        count_matches(l, t) >= 0,
    decreases l.len(),
{
    if l.len() > 0 {
        lemma_count_matches_nonneg(l.take(l.len() - 1), t);
    }
}

pub proof fn lemma_count_matches_push(l: Seq<Seq<char>>, t: Seq<char>, x: Seq<char>)
    ensures
        count_matches(l.push(x), t) == count_matches(l, t) + (if x == t {
            1int
        } else {
            0int
        }),
{
    assert(l.push(x).take(l.len() as int) =~= l);
    assert(l.push(x).last() == x);
}

/// A prefix of `l` never holds more matches than `l` itself.
pub proof fn lemma_count_matches_prefix_le(l: Seq<Seq<char>>, t: Seq<char>, q: int)
    requires
        0 <= q <= l.len(),
    ensures
        count_matches(l.take(q), t) <= count_matches(l, t),
    decreases l.len(),
{
    if q == l.len() {
        assert(l.take(q) =~= l);
    } else {
        lemma_count_matches_prefix_le(l.take(l.len() - 1), t, q);
        assert(l.take(l.len() - 1).take(q) =~= l.take(q));
    }
}

pub proof fn lemma_circ_hits_nonneg(g: AdjView, f: Seq<Seq<char>>, start: Seq<char>)
    ensures
        circ_hits(g, f, start) >= 0,
    decreases f.len(),
{
    if f.len() > 0 {
        lemma_count_matches_nonneg(station_dests(g, f[0]), start);
        lemma_circ_hits_nonneg(g, f.skip(1), start);
    }
}

pub proof fn lemma_circ_spec_nonneg(g: AdjView, start: Seq<char>, f: Seq<Seq<char>>, n: nat)
    ensures
        circ_spec(g, start, f, n) is Some ==> circ_spec(g, start, f, n)->Some_0 >= 0,
    decreases n,
{
    if n > 0 && circ_ok(g, f) {
        lemma_circ_spec_nonneg(g, start, circ_next(g, f), (n - 1) as nat);
        lemma_circ_hits_nonneg(g, f, start);
    }
}

pub proof fn lemma_count_at_nonneg(f: Seq<RouteModel>, dest: Seq<char>)
    ensures
        count_at(f, dest) >= 0,
    decreases f.len(),
{
    if f.len() > 0 {
        lemma_count_at_nonneg(f.skip(1), dest);
    }
}

pub proof fn lemma_rl_round_nonneg(g: AdjView, dest: Seq<char>, ceiling: int, f: Seq<RouteModel>)
    ensures
        rl_round(g, dest, ceiling, f).1 >= 0,
    decreases f.len(),
{
    if f.len() > 0 {
        lemma_rl_round_nonneg(g, dest, ceiling, f.skip(1));
    }
}

/// A prefix of a fixed path costs no more than the whole path.
pub proof fn lemma_path_distance_prefix(g: AdjView, s: Seq<Seq<char>>, j: int)
    requires
        1 <= j <= s.len(),
    ensures
        path_distance(g, s) is Some ==> (path_distance(g, s.take(j)) is Some && path_distance(
            g,
            s.take(j),
        )->Some_0 <= path_distance(g, s)->Some_0),
    decreases s.len(),
{
    if j == s.len() {
        assert(s.take(j) =~= s);
    } else if path_distance(g, s) is Some {
        lemma_path_distance_prefix(g, s.take(s.len() - 1), j);
        assert(s.take(s.len() - 1).take(j) =~= s.take(j));
    }
}

pub proof fn lemma_path_distance_nonneg(g: AdjView, stops: Seq<Seq<char>>)
    ensures
        path_distance(g, stops) is Some ==> path_distance(g, stops)->Some_0 >= 0,
    decreases stops.len(),
{
    if stops.len() > 1 {
        lemma_path_distance_nonneg(g, stops.take(stops.len() - 1));
    }
}

pub proof fn lemma_rl_state_nonneg(
    g: AdjView,
    dest: Seq<char>,
    ceiling: int,
    f0: Seq<RouteModel>,
    k: nat,
)
    ensures
        rl_state(g, dest, ceiling, f0, k).1 >= 0,
    decreases k,
{
    if k > 0 {
        lemma_rl_state_nonneg(g, dest, ceiling, f0, (k - 1) as nat);
        lemma_rl_round_nonneg(g, dest, ceiling, rl_state(g, dest, ceiling, f0, (k - 1) as nat).0);
    }
}

/// Every edge list that `adj_station` can return lies in the graph, so a
/// graph of positive distances hands out only positive distances.
pub proof fn lemma_adj_station_positive(g: AdjView, s: Seq<char>)
    requires
        positive_distances(g),
        adj_station(g, s) is Some,
    ensures
        forall|j: int|
            0 <= j < adj_station(g, s)->Some_0.len() ==> (#[trigger] adj_station(
                g,
                s,
            )->Some_0[j]).1 >= 1,
    decreases g.len(),
{
    if g.len() > 0 && g[0].0 != s {
        assert forall|i: int, j: int|
            0 <= i < g.skip(1).len() && 0 <= j < g.skip(1)[i].1.len() implies (#[trigger] g.skip(
            1,
        )[i].1[j]).1 >= 1 by {
            assert(g.skip(1)[i] == g[i + 1]);
        }
        lemma_adj_station_positive(g.skip(1), s);
    }
}

/// One more round moves the whole frontier one hop further.
pub proof fn lemma_frontier_after_snoc(g: AdjView, f: Seq<RouteModel>, n: nat)
    ensures
        frontier_after(g, f, n + 1) == expand_frontier(g, frontier_after(g, f, n)),
    decreases n,
{
    if n == 0 {
        assert(frontier_after(g, f, 1) == frontier_after(g, expand_frontier(g, f), 0));
    } else {
        lemma_frontier_after_snoc(g, expand_frontier(g, f), (n - 1) as nat);
        assert(frontier_after(g, f, n + 1) == frontier_after(g, expand_frontier(g, f), n));
        assert(frontier_after(g, f, n) == frontier_after(g, expand_frontier(g, f), (n - 1) as nat));
    }
}

/// Expanding one well-formed route adds at most one edge distance.
pub proof fn lemma_expand_route_ok(g: AdjView, r: RouteModel, b: int)
    requires
        r.stops.len() >= 1,
        0 <= r.dist <= b,
    ensures
        frontier_ok(expand_route(g, r), b + u32::MAX as int),
{
    match adj_station(g, r.stops.last()) {
        None => {
        },
        Some(l) => {
            assert forall|i: int|
                0 <= i < expand_route(g, r).len() implies (#[trigger] expand_route(
                g,
                r,
            )[i]).stops.len() >= 1 && 0 <= expand_route(g, r)[i].dist <= b + u32::MAX as int by {
                assert(expand_route(g, r)[i].dist == r.dist + l[i].1);
            }
        },
    }
}

/// Expanding a well-formed frontier adds at most one edge distance.
pub proof fn lemma_expand_frontier_ok(g: AdjView, f: Seq<RouteModel>, b: int)
    requires
        frontier_ok(f, b),
        b >= 0,
    ensures
        frontier_ok(expand_frontier(g, f), b + u32::MAX as int),
    decreases f.len(),
{
    if f.len() > 0 {
        lemma_expand_route_ok(g, f[0], b);
        assert(frontier_ok(f.skip(1), b));
        lemma_expand_frontier_ok(g, f.skip(1), b);
        let e = expand_route(g, f[0]);
        let rest = expand_frontier(g, f.skip(1));
        assert forall|i: int|
            0 <= i < (e + rest).len() implies (#[trigger] (e + rest)[i]).stops.len() >= 1 && 0 <= (
        e + rest)[i].dist <= b + u32::MAX as int by {
            if i < e.len() {
                assert((e + rest)[i] == e[i]);
            } else {
                assert((e + rest)[i] == rest[i - e.len()]);
            }
        }
    }
}

/// Every route of `f` has accumulated at least distance `low`.
pub open spec fn min_dist_ok(f: Seq<RouteModel>, low: int) -> bool {
    forall|i: int| 0 <= i < f.len() ==> (#[trigger] f[i]).dist >= low
}

/// On a graph of positive distances, expanding a route of distance at least
/// `low` yields routes of distance at least `low + 1`.
pub proof fn lemma_expand_route_min(g: AdjView, r: RouteModel, low: int)
    requires
        positive_distances(g),
        r.dist >= low,
    ensures
        min_dist_ok(expand_route(g, r), low + 1),
{
    match adj_station(g, r.stops.last()) {
        None => {
        },
        Some(l) => {
            lemma_adj_station_positive(g, r.stops.last());
            assert forall|i: int|
                0 <= i < expand_route(g, r).len() implies (#[trigger] expand_route(g, r)[i]).dist
                >= low + 1 by {
                assert(l[i].1 >= 1);
                assert(expand_route(g, r)[i].dist == r.dist + l[i].1);
            }
        },
    }
}

/// Each station's outgoing list names every destination at most once, as a
/// mapping does.  The graphs that `build_adj` produces all have this shape.
pub open spec fn distinct_dests(g: AdjView) -> bool {
    forall|i: int, j1: int, j2: int|
        0 <= i < g.len() && 0 <= j1 < j2 < g[i].1.len() ==> (#[trigger] g[i].1[j1]).0 != (
        #[trigger] g[i].1[j2]).0
}

/// Inserting into an edge list keeps its destinations distinct, and brings
/// in no destination but the inserted one.
proof fn lemma_edges_insert_distinct(l: EdgesView, d: Seq<char>, w: u32)
    requires
        forall|j1: int, j2: int|
            0 <= j1 < j2 < l.len() ==> (#[trigger] l[j1]).0 != (#[trigger] l[j2]).0,
    ensures
        forall|j1: int, j2: int|
            0 <= j1 < j2 < edges_insert(l, d, w).len() ==> (#[trigger] edges_insert(l, d, w)[j1]).0
                != (#[trigger] edges_insert(l, d, w)[j2]).0,
        forall|j: int|
            0 <= j < edges_insert(l, d, w).len() ==> ((#[trigger] edges_insert(l, d, w)[j]).0 == d
                || (exists|m: int| 0 <= m < l.len() && (#[trigger] l[m]).0 == edges_insert(
                l,
                d,
                w,
            )[j].0)),
    decreases l.len(),
{
    let r = edges_insert(l, d, w);
    if l.len() == 0 {
    } else if l[0].0 == d {
        assert forall|j1: int, j2: int|
            0 <= j1 < j2 < r.len() implies (#[trigger] r[j1]).0 != (#[trigger] r[j2]).0 by {
            if j1 == 0 {
                assert(r[j2] == l.skip(1)[j2 - 1]);
                assert(l.skip(1)[j2 - 1] == l[j2]);
                assert(l[0].0 != l[j2].0);
            } else {
                assert(r[j1] == l[j1]);
                assert(r[j2] == l[j2]);
            }
        }
        assert forall|j: int|
            0 <= j < r.len() implies ((#[trigger] r[j]).0 == d || (exists|m: int|
            0 <= m < l.len() && (#[trigger] l[m]).0 == r[j].0)) by {
            if j > 0 {
                assert(r[j] == l[j]);
            }
        }
    } else {
        assert forall|j1: int, j2: int|
            0 <= j1 < j2 < l.skip(1).len() implies (#[trigger] l.skip(1)[j1]).0 != (#[trigger] l.skip(
            1,
        )[j2]).0 by {
            assert(l.skip(1)[j1] == l[j1 + 1]);
            assert(l.skip(1)[j2] == l[j2 + 1]);
        }
        lemma_edges_insert_distinct(l.skip(1), d, w);
        let rr = edges_insert(l.skip(1), d, w);
        assert forall|j1: int, j2: int|
            0 <= j1 < j2 < r.len() implies (#[trigger] r[j1]).0 != (#[trigger] r[j2]).0 by {
            if j1 == 0 {
                assert(r[j2] == rr[j2 - 1]);
                if rr[j2 - 1].0 == d {
                } else {
                    let m = choose|m: int|
                        0 <= m < l.skip(1).len() && (#[trigger] l.skip(1)[m]).0 == rr[j2 - 1].0;
                    assert(l.skip(1)[m] == l[m + 1]);
                    assert(l[0].0 != l[m + 1].0);
                }
            } else {
                assert(r[j1] == rr[j1 - 1]);
                assert(r[j2] == rr[j2 - 1]);
            }
        }
        assert forall|j: int|
            0 <= j < r.len() implies ((#[trigger] r[j]).0 == d || (exists|m: int|
            0 <= m < l.len() && (#[trigger] l[m]).0 == r[j].0)) by {
            if j == 0 {
                assert(l[0].0 == r[0].0);
            } else {
                assert(r[j] == rr[j - 1]);
                if rr[j - 1].0 != d {
                    let m = choose|m: int|
                        0 <= m < l.skip(1).len() && (#[trigger] l.skip(1)[m]).0 == rr[j - 1].0;
                    assert(l[m + 1].0 == r[j].0);
                }
            }
        }
    }
}

/// Inserting an edge keeps every station's destinations distinct.
proof fn lemma_adj_insert_distinct(g: AdjView, o: Seq<char>, d: Seq<char>, w: u32)
    requires
        distinct_dests(g),
    ensures
        distinct_dests(adj_insert(g, o, d, w)),
    decreases g.len(),
{
    let r = adj_insert(g, o, d, w);
    if g.len() == 0 {
    } else if g[0].0 == o {
        assert forall|j1: int, j2: int|
            0 <= j1 < j2 < g[0].1.len() implies (#[trigger] g[0].1[j1]).0 != (
        #[trigger] g[0].1[j2]).0 by {
            assert(g[0].1 == g[0].1);
        }
        lemma_edges_insert_distinct(g[0].1, d, w);
        assert forall|i: int, j1: int, j2: int|
            0 <= i < r.len() && 0 <= j1 < j2 < r[i].1.len() implies (#[trigger] r[i].1[j1]).0 != (
        #[trigger] r[i].1[j2]).0 by {
            if i == 0 {
            } else {
                assert(r[i] == g[i]);
            }
        }
    } else {
        assert forall|i: int, j1: int, j2: int|
            0 <= i < g.skip(1).len() && 0 <= j1 < j2 < g.skip(1)[i].1.len() implies (
        #[trigger] g.skip(1)[i].1[j1]).0 != (#[trigger] g.skip(1)[i].1[j2]).0 by {
            assert(g.skip(1)[i] == g[i + 1]);
        }
        lemma_adj_insert_distinct(g.skip(1), o, d, w);
        let rr = adj_insert(g.skip(1), o, d, w);
        assert forall|i: int, j1: int, j2: int|
            0 <= i < r.len() && 0 <= j1 < j2 < r[i].1.len() implies (#[trigger] r[i].1[j1]).0 != (
        #[trigger] r[i].1[j2]).0 by {
            if i == 0 {
                assert(r[0] == g[0]);
            } else {
                assert(r[i] == rr[i - 1]);
            }
        }
    }
}

/// Every graph built from an edge list keeps each station's destinations
/// distinct: its outgoing edges form a mapping.
pub proof fn lemma_build_adj_distinct(edges: Seq<(Seq<char>, Seq<char>, u32)>)
    ensures
        distinct_dests(build_adj(edges)),
    decreases edges.len(),
{
    if edges.len() > 0 {
        lemma_build_adj_distinct(edges.take(edges.len() - 1));
        let e = edges[edges.len() - 1];
        lemma_adj_insert_distinct(build_adj(edges.take(edges.len() - 1)), e.0, e.1, e.2);
    }
}

/// Whatever `adj_station` hands out is one of the graph's entries.
pub proof fn lemma_adj_station_is_entry(g: AdjView, s: Seq<char>)
    requires
        adj_station(g, s) is Some,
    ensures
        exists|i: int|
            0 <= i < g.len() && (#[trigger] g[i]).0 == s && g[i].1 == adj_station(g, s)->Some_0,
    decreases g.len(),
{
    if g.len() > 0 && g[0].0 != s {
        lemma_adj_station_is_entry(g.skip(1), s);
        let i = choose|i: int|
            0 <= i < g.skip(1).len() && (#[trigger] g.skip(1)[i]).0 == s && g.skip(1)[i].1
                == adj_station(g.skip(1), s)->Some_0;
        assert(g[i + 1] == g.skip(1)[i]);
    }
}

/// In a list with distinct destinations, looking a destination up finds
/// its own distance.
pub proof fn lemma_edges_lookup_at(l: EdgesView, j: int)
    requires
        0 <= j < l.len(),
        forall|j1: int, j2: int|
            0 <= j1 < j2 < l.len() ==> (#[trigger] l[j1]).0 != (#[trigger] l[j2]).0,
    ensures
        edges_lookup(l, l[j].0) == Some(l[j].1),
    decreases j,
{
    if j > 0 {
        assert(l[0].0 != l[j].0);
        assert forall|j1: int, j2: int|
            0 <= j1 < j2 < l.skip(1).len() implies (#[trigger] l.skip(1)[j1]).0 != (
        #[trigger] l.skip(1)[j2]).0 by {
            assert(l.skip(1)[j1] == l[j1 + 1]);
            assert(l.skip(1)[j2] == l[j2 + 1]);
        }
        lemma_edges_lookup_at(l.skip(1), j - 1);
        assert(l.skip(1)[j - 1] == l[j]);
    }
}

/// A query result as a mathematical option, for stating contracts.
pub open spec fn as_int_opt(r: Option<u32>) -> Option<int> {
    match r {
        None => None,
        Some(v) => Some(v as int),
    }
}

} // verus!
