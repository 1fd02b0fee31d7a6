//! Properties of the query engine, stated and proved once for all graphs:
//! the fixed-path laws (a one-station path is free, a missing pair fails
//! the whole path), the circular count on a pure cycle, what the
//! shortest-route search finds (a genuine nontrivial walk, and no direct
//! walk is cheaper), and that the searching queries answer the same
//! however many rounds they are given — with the query contracts, a
//! repeated query returns the same value.

use vstd::prelude::*;
use crate::model::{
    EdgesView,
    edges_lookup,
    AdjView,
    RouteModel,
    adj_station,
    distinct_dests,
    edge_distance,
    expand_route,
    init_route,
    lemma_adj_station_is_entry,
    lemma_edges_lookup_at,
    lemma_path_distance_prefix,
    circ_hits,
    circ_next,
    circ_ok,
    circ_spec,
    count_matches,
    path_distance,
    rl_done,
    rl_round,
    rl_state,
    sr_answer,
    sr_done,
    sr_round,
    sr_state,
    station_dests,
};
use vstd::arithmetic::div_mod::{
    lemma_basic_div,
    lemma_div_plus_one,
    lemma_mod_self_0,
    lemma_small_mod,
};

verus! {

/// `st` is a pure cycle in `g`: every one of its stations leads exactly to
/// the next one around the cycle, and its stations are pairwise distinct.
pub open spec fn pure_cycle(g: AdjView, st: Seq<Seq<char>>) -> bool {
    &&& st.len() >= 1
    &&& (forall|i: int| 0 <= i < st.len() ==> #[trigger] adj_station(g, st[i]) is Some)
    &&& (forall|i: int|
        0 <= i < st.len() ==> #[trigger] station_dests(g, st[i]) == seq![
            st[(i + 1) % st.len() as int],
        ])
    &&& (forall|i: int, j: int|
        #![trigger st[i], st[j]]
        0 <= i < j < st.len() ==> st[i] != st[j])
}

proof fn lemma_count_matches_single(x: Seq<char>, t: Seq<char>)
    ensures
        count_matches(seq![x], t) == (if x == t {
            1int
        } else {
            0int
        }),
{
    let d = seq![x];
    assert(d.take(0) =~= Seq::<Seq<char>>::empty());
    assert(count_matches(Seq::<Seq<char>>::empty(), t) == 0);
    assert(d.last() == x);
}

#[verifier::rlimit(30)]
proof fn lemma_pure_cycle_spec(g: AdjView, st: Seq<Seq<char>>, j: int, n: nat)
    requires
        pure_cycle(g, st),
        0 <= j < st.len(),
    ensures
        circ_spec(g, st[0], seq![st[j]], n) == Some((j + n) / st.len() as int),
    decreases n,
{
    let lcy = st.len() as int;
    if n == 0 {
        lemma_basic_div(j, lcy);
    } else {
        let f = seq![st[j]];
        assert(circ_ok(g, f));
        let j2 = (j + 1) % lcy;
        if j + 1 < lcy {
            lemma_small_mod((j + 1) as nat, lcy as nat);
        } else {
            lemma_mod_self_0(lcy);
        }
        assert(0 <= j2 < lcy);
        assert(f.skip(1) =~= Seq::<Seq<char>>::empty());
        assert(f[0] == st[j]);
        assert(station_dests(g, st[j]) == seq![st[(j + 1) % st.len() as int]]);
        assert(circ_next(g, Seq::<Seq<char>>::empty()) == Seq::<Seq<char>>::empty());
        assert(station_dests(g, st[j]) + Seq::<Seq<char>>::empty() =~= seq![st[j2]]);
        assert(circ_next(g, f) =~= seq![st[j2]]);
        lemma_count_matches_single(st[j2], st[0]);
        assert(circ_hits(g, Seq::<Seq<char>>::empty(), st[0]) == 0);
        assert(circ_hits(g, f, st[0]) == (if st[j2] == st[0] {
            1int
        } else {
            0int
        }));
        lemma_pure_cycle_spec(g, st, j2, (n - 1) as nat);
        if j + 1 < lcy {
            // the round does not close the cycle
            assert(st[j2] != st[0]);
            assert((j2 + (n - 1)) / lcy == (j + n) / lcy);
        } else {
            // the round arrives back at the start
            assert(j2 == 0);
            lemma_div_plus_one(n - 1, lcy);
            assert(1 + (n - 1) / lcy == (lcy + (n - 1)) / lcy);
            assert((j + n) / lcy == (lcy + (n - 1)) / lcy);
        }
    }
}

/// On a pure cycle of length `L`, counting circular routes from its start
/// over `N` rounds yields exactly `N / L`: one hit for each full turn of
/// the cycle that fits in `N` rounds.
pub proof fn lemma_circular_route_pure_cycle(g: AdjView, st: Seq<Seq<char>>, n: nat)
    requires
        pure_cycle(g, st),
    ensures
        circ_spec(g, st[0], seq![st[0]], n) == Some(n as int / st.len() as int),
{
    lemma_pure_cycle_spec(g, st, 0, n);
}

/// Every route of `f` is a real walk of at least one hop from `start`, and
/// carries that walk's path distance.
pub open spec fn sr_frontier_sound(g: AdjView, start: Seq<char>, f: Seq<RouteModel>) -> bool {
    forall|i: int|
        0 <= i < f.len() ==> (#[trigger] f[i]).stops.len() >= 2 && f[i].stops[0] == start
            && path_distance(g, f[i].stops) == Some(f[i].dist)
}

/// The best distance is still the "infinite" sentinel, or it is the path
/// distance of a real walk of at least one hop from `start` to `dest`.
pub open spec fn sr_best_sound(g: AdjView, start: Seq<char>, dest: Seq<char>, b: int) -> bool {
    b == u32::MAX as int || (exists|w: Seq<Seq<char>>|
        #[trigger] path_distance(g, w) == Some(b) && w.len() >= 2 && w[0] == start && w[w.len()
            - 1] == dest)
}

proof fn lemma_expand_route_sound(g: AdjView, start: Seq<char>, r: RouteModel)
    requires
        distinct_dests(g),
        r.stops.len() >= 1,
        r.stops[0] == start,
        path_distance(g, r.stops) == Some(r.dist),
    ensures
        forall|j: int|
            0 <= j < expand_route(g, r).len() ==> ((#[trigger] expand_route(g, r)[j]).stops.len()
                >= 2 && expand_route(g, r)[j].stops[0] == start && path_distance(
                g,
                expand_route(g, r)[j].stops,
            ) == Some(expand_route(g, r)[j].dist)),
{
    match adj_station(g, r.stops.last()) {
        None => {
        },
        Some(l) => {
            lemma_adj_station_is_entry(g, r.stops.last());
            let gi = choose|i: int|
                0 <= i < g.len() && (#[trigger] g[i]).0 == r.stops.last() && g[i].1
                    == adj_station(g, r.stops.last())->Some_0;
            assert forall|j: int|
                0 <= j < expand_route(g, r).len() implies ((#[trigger] expand_route(
                g,
                r,
            )[j]).stops.len() >= 2 && expand_route(g, r)[j].stops[0] == start && path_distance(
                g,
                expand_route(g, r)[j].stops,
            ) == Some(expand_route(g, r)[j].dist)) by {
                let ns = r.stops.push(l[j].0);
                assert(ns.take(ns.len() - 1) =~= r.stops);
                assert(ns[ns.len() - 2] == r.stops.last());
                assert(ns[ns.len() - 1] == l[j].0);
                assert forall|j1: int, j2: int|
                    0 <= j1 < j2 < l.len() implies (#[trigger] l[j1]).0 != (#[trigger] l[j2]).0 by {
                    assert(g[gi].1[j1] == l[j1]);
                    assert(g[gi].1[j2] == l[j2]);
                }
                lemma_edges_lookup_at(l, j);
                assert(edge_distance(g, r.stops.last(), l[j].0) == Some(l[j].1));
                assert(path_distance(g, ns) == Some(r.dist + l[j].1));
            }
        },
    }
}

proof fn lemma_sr_round_sound(
    g: AdjView,
    start: Seq<char>,
    dest: Seq<char>,
    f: Seq<RouteModel>,
    b: int,
)
    requires
        distinct_dests(g),
        sr_frontier_sound(g, start, f),
        sr_best_sound(g, start, dest, b),
    ensures
        sr_frontier_sound(g, start, sr_round(g, dest, f, b).0),
        sr_best_sound(g, start, dest, sr_round(g, dest, f, b).1),
    decreases f.len(),
{
    if f.len() > 0 {
        assert forall|i: int|
            0 <= i < f.skip(1).len() implies (#[trigger] f.skip(1)[i]).stops.len() >= 2 && f.skip(
            1,
        )[i].stops[0] == start && path_distance(g, f.skip(1)[i].stops) == Some(
            f.skip(1)[i].dist,
        ) by {
            assert(f.skip(1)[i] == f[i + 1]);
        }
        if f[0].dist < b {
            if f[0].stops.last() == dest {
                assert(sr_best_sound(g, start, dest, f[0].dist)) by {
                    if f[0].dist != u32::MAX as int {
                        assert(path_distance(g, f[0].stops) == Some(f[0].dist));
                        assert(f[0].stops[f[0].stops.len() - 1] == dest);
                    }
                }
                lemma_sr_round_sound(g, start, dest, f.skip(1), f[0].dist);
            } else {
                lemma_expand_route_sound(g, start, f[0]);
                lemma_sr_round_sound(g, start, dest, f.skip(1), b);
                let e = expand_route(g, f[0]);
                let rest = sr_round(g, dest, f.skip(1), b).0;
                assert forall|i: int|
                    0 <= i < (e + rest).len() implies (#[trigger] (e + rest)[i]).stops.len() >= 2
                    && (e + rest)[i].stops[0] == start && path_distance(g, (e + rest)[i].stops)
                    == Some((e + rest)[i].dist) by {
                    if i < e.len() {
                        assert((e + rest)[i] == e[i]);
                    } else {
                        assert((e + rest)[i] == rest[i - e.len()]);
                    }
                }
            }
        } else {
            lemma_sr_round_sound(g, start, dest, f.skip(1), b);
        }
    }
}

proof fn lemma_sr_state_sound(
    g: AdjView,
    start: Seq<char>,
    dest: Seq<char>,
    f0: Seq<RouteModel>,
    k: nat,
)
    requires
        distinct_dests(g),
        sr_frontier_sound(g, start, f0),
    ensures
        sr_frontier_sound(g, start, sr_state(g, dest, f0, k).0),
        sr_best_sound(g, start, dest, sr_state(g, dest, f0, k).1),
    decreases k,
{
    if k > 0 {
        lemma_sr_state_sound(g, start, dest, f0, (k - 1) as nat);
        lemma_sr_round_sound(
            g,
            start,
            dest,
            sr_state(g, dest, f0, (k - 1) as nat).0,
            sr_state(g, dest, f0, (k - 1) as nat).1,
        );
    }
}

/// A finished shortest-route search that reports a distance reports the
/// distance of a real walk of at least one hop from `start` to `dest` —
/// with `start == dest`, of a genuine cycle, never the zero-length trivial
/// path.  `lemma_shortest_route_minimal` adds that no direct walk is
/// cheaper.  The premise on destinations holds of every graph the
/// edge-list parser builds, since each station's outgoing edges form a
/// mapping.
pub proof fn lemma_shortest_route_nontrivial(g: AdjView, start: Seq<char>, dest: Seq<char>, k: nat)
    requires
        distinct_dests(g),
        sr_done(g, dest, expand_route(g, init_route(start)), k),
        sr_answer(g, dest, expand_route(g, init_route(start)), k) is Some,
    ensures
        exists|w: Seq<Seq<char>>|
            #[trigger] path_distance(g, w) == Some(
                sr_answer(g, dest, expand_route(g, init_route(start)), k)->Some_0,
            ) && w.len() >= 2 && w[0] == start && w[w.len() - 1] == dest,
{
    let f0 = expand_route(g, init_route(start));
    lemma_expand_route_sound(g, start, init_route(start));
    assert(sr_frontier_sound(g, start, f0));
    lemma_sr_state_sound(g, start, dest, f0, k);
}

/// A fixed path of a single station has distance 0, on every graph.
pub proof fn lemma_single_stop_distance(g: AdjView, stops: Seq<Seq<char>>)
    requires
        stops.len() == 1,
    ensures
        path_distance(g, stops) == Some(0int),
{
}

/// Fixed-path distance short-circuits: as soon as one consecutive pair has
/// no edge, the whole path has no distance, whatever stands after the pair.
pub proof fn lemma_path_short_circuit(g: AdjView, stops: Seq<Seq<char>>, i: int)
    requires
        1 <= i < stops.len(),
        edge_distance(g, stops[i - 1], stops[i]) is None,
    ensures
        path_distance(g, stops) is None,
    decreases stops.len(),
{
    if i < stops.len() - 1 {
        assert(stops.take(stops.len() - 1)[i - 1] == stops[i - 1]);
        assert(stops.take(stops.len() - 1)[i] == stops[i]);
        lemma_path_short_circuit(g, stops.take(stops.len() - 1), i);
    }
}

/// `w` is a direct walk from `start` to `dest` in `g`: an existing path of
/// at least one hop that does not pass through `dest` on the way.
pub open spec fn direct_walk(g: AdjView, start: Seq<char>, dest: Seq<char>, w: Seq<Seq<char>>) -> bool {
    &&& path_distance(g, w) is Some
    &&& w.len() >= 2
    &&& w[0] == start
    &&& w[w.len() - 1] == dest
    &&& (forall|i: int| 1 <= i < w.len() - 1 ==> w[i] != dest)
}

/// The search still accounts for the walk `w`: either its distance already
/// cannot beat the best, or one of its prefixes stands in the frontier.
pub open spec fn sr_covers(f: Seq<RouteModel>, b: int, g: AdjView, w: Seq<Seq<char>>) -> bool {
    path_distance(g, w)->Some_0 >= b || (exists|idx: int, i: int|
        #![trigger f[idx].stops, w.take(i)]
        0 <= idx < f.len() && 2 <= i <= w.len() && f[idx].stops == w.take(i))
}

proof fn lemma_edges_lookup_exists(l: EdgesView, d: Seq<char>)
    requires
        edges_lookup(l, d) is Some,
    ensures
        exists|j: int| 0 <= j < l.len() && (#[trigger] l[j]).0 == d,
    decreases l.len(),
{
    if l.len() > 0 {
        if l[0].0 == d {
            assert(0 <= 0 < l.len() && l[0].0 == d);
        } else {
            lemma_edges_lookup_exists(l.skip(1), d);
            let j = choose|j: int| 0 <= j < l.skip(1).len() && (#[trigger] l.skip(1)[j]).0 == d;
            assert(l[j + 1] == l.skip(1)[j]);
            assert(0 <= j + 1 < l.len() && l[j + 1].0 == d);
        }
    }
}

/// The running best distance of a round never grows.
proof fn lemma_sr_round_best_le(g: AdjView, dest: Seq<char>, f: Seq<RouteModel>, b: int)
    ensures
        sr_round(g, dest, f, b).1 <= b,
    decreases f.len(),
{
    if f.len() > 0 {
        if f[0].dist < b && f[0].stops.last() == dest {
            lemma_sr_round_best_le(g, dest, f.skip(1), f[0].dist);
        } else {
            lemma_sr_round_best_le(g, dest, f.skip(1), b);
        }
    }
}

proof fn lemma_sr_round_covers(
    g: AdjView,
    start: Seq<char>,
    dest: Seq<char>,
    f: Seq<RouteModel>,
    b: int,
    w: Seq<Seq<char>>,
)
    requires
        sr_frontier_sound(g, start, f),
        direct_walk(g, start, dest, w),
        sr_covers(f, b, g, w),
    ensures
        sr_covers(sr_round(g, dest, f, b).0, sr_round(g, dest, f, b).1, g, w),
    decreases f.len(),
{
    let wd = path_distance(g, w)->Some_0;
    let res = sr_round(g, dest, f, b);
    lemma_sr_round_best_le(g, dest, f, b);
    if wd >= b {
        // the first disjunct only strengthens as the best shrinks
        assert(wd >= res.1);
    } else {
        let (idx, i) = choose|idx: int, i: int|
            #![trigger f[idx].stops, w.take(i)]
            0 <= idx < f.len() && 2 <= i <= w.len() && f[idx].stops == w.take(i);
        assert forall|m: int|
            0 <= m < f.skip(1).len() implies (#[trigger] f.skip(1)[m]).stops.len() >= 2 && f.skip(
            1,
        )[m].stops[0] == start && path_distance(g, f.skip(1)[m].stops) == Some(
            f.skip(1)[m].dist,
        ) by {
            assert(f.skip(1)[m] == f[m + 1]);
        }
        if idx == 0 {
            assert(f[0].stops == w.take(i));
            assert(w.take(i).len() == i);
            assert(w.take(i).last() == w[i - 1]);
            lemma_path_distance_prefix(g, w, i);
            assert(f[0].dist <= wd);
            if f[0].dist < b {
                if f[0].stops.last() == dest {
                    // a direct walk meets `dest` only at its end
                    assert(i == w.len());
                    assert(w.take(i) =~= w);
                    assert(f[0].dist == wd);
                    lemma_sr_round_best_le(g, dest, f.skip(1), f[0].dist);
                    assert(wd >= res.1);
                } else {
                    assert(w.take(i).last() != dest);
                    assert(i < w.len());
                    lemma_path_distance_prefix(g, w, i + 1);
                    assert(w.take(i + 1).take(i) =~= w.take(i));
                    assert(w.take(i + 1)[i - 1] == w[i - 1]);
                    assert(w.take(i + 1)[i] == w[i]);
                    assert(edge_distance(g, w[i - 1], w[i]) is Some);
                    let l = adj_station(g, w[i - 1])->Some_0;
                    lemma_edges_lookup_exists(l, w[i]);
                    let j = choose|j: int| 0 <= j < l.len() && (#[trigger] l[j]).0 == w[i];
                    assert(expand_route(g, f[0])[j].stops == f[0].stops.push(l[j].0));
                    assert(w.take(i).push(w[i]) =~= w.take(i + 1));
                    let rest = sr_round(g, dest, f.skip(1), b);
                    assert(res.0[j] == expand_route(g, f[0])[j]);
                    assert(res.0[j].stops == w.take(i + 1));
                    assert(0 <= j < res.0.len() && 2 <= i + 1 <= w.len() && res.0[j].stops
                        == w.take(i + 1));
                }
            } else {
                assert(wd >= b);
                assert(wd >= res.1);
            }
        } else {
            assert(f.skip(1)[idx - 1] == f[idx]);
            assert(0 <= idx - 1 < f.skip(1).len() && 2 <= i <= w.len() && f.skip(1)[idx - 1].stops
                == w.take(i));
            if f[0].dist < b {
                if f[0].stops.last() == dest {
                    assert(sr_covers(f.skip(1), f[0].dist, g, w));
                    lemma_sr_round_covers(g, start, dest, f.skip(1), f[0].dist, w);
                } else {
                    assert(sr_covers(f.skip(1), b, g, w));
                    lemma_sr_round_covers(g, start, dest, f.skip(1), b, w);
                    let e = expand_route(g, f[0]);
                    let rest = sr_round(g, dest, f.skip(1), b);
                    if wd >= rest.1 {
                    } else {
                        let (idx2, i2) = choose|idx2: int, i2: int|
                            #![trigger rest.0[idx2].stops, w.take(i2)]
                            0 <= idx2 < rest.0.len() && 2 <= i2 <= w.len() && rest.0[idx2].stops
                                == w.take(i2);
                        assert(res.0[idx2 + e.len()] == rest.0[idx2]);
                        assert(0 <= idx2 + e.len() < res.0.len() && 2 <= i2 <= w.len() && res.0[idx2
                            + e.len()].stops == w.take(i2));
                    }
                }
            } else {
                assert(sr_covers(f.skip(1), b, g, w));
                lemma_sr_round_covers(g, start, dest, f.skip(1), b, w);
            }
        }
    }
}

proof fn lemma_sr_state_covers(
    g: AdjView,
    start: Seq<char>,
    dest: Seq<char>,
    f0: Seq<RouteModel>,
    k: nat,
    w: Seq<Seq<char>>,
)
    requires
        distinct_dests(g),
        sr_frontier_sound(g, start, f0),
        direct_walk(g, start, dest, w),
        sr_covers(f0, u32::MAX as int, g, w),
    ensures
        sr_covers(sr_state(g, dest, f0, k).0, sr_state(g, dest, f0, k).1, g, w),
    decreases k,
{
    if k > 0 {
        lemma_sr_state_covers(g, start, dest, f0, (k - 1) as nat, w);
        lemma_sr_state_sound(g, start, dest, f0, (k - 1) as nat);
        lemma_sr_round_covers(
            g,
            start,
            dest,
            sr_state(g, dest, f0, (k - 1) as nat).0,
            sr_state(g, dest, f0, (k - 1) as nat).1,
            w,
        );
    }
}

/// A finished shortest-route search reports a best distance no larger than
/// the distance of any direct walk from `start` to `dest`: together with
/// `lemma_shortest_route_nontrivial` the reported distance is exactly the
/// least distance of such a walk.  A walk that passes through `dest` on the
/// way is no loss: its part up to the first arrival is a direct walk that
/// costs no more.
pub proof fn lemma_shortest_route_minimal(
    g: AdjView,
    start: Seq<char>,
    dest: Seq<char>,
    k: nat,
    w: Seq<Seq<char>>,
)
    requires
        distinct_dests(g),
        sr_done(g, dest, expand_route(g, init_route(start)), k),
        direct_walk(g, start, dest, w),
    ensures
        path_distance(g, w)->Some_0 >= sr_state(g, dest, expand_route(g, init_route(start)), k).1,
{
    let f0 = expand_route(g, init_route(start));
    lemma_expand_route_sound(g, start, init_route(start));
    assert(sr_frontier_sound(g, start, f0));
    lemma_path_distance_prefix(g, w, 2);
    assert(w.take(2).take(1) =~= w.take(1));
    assert(w.take(2)[0] == w[0]);
    assert(w.take(2)[1] == w[1]);
    assert(edge_distance(g, w[0], w[1]) is Some);
    let l = adj_station(g, w[0])->Some_0;
    lemma_edges_lookup_exists(l, w[1]);
    let j = choose|j: int| 0 <= j < l.len() && (#[trigger] l[j]).0 == w[1];
    assert(init_route(start).stops.last() == start);
    assert(f0[j].stops == init_route(start).stops.push(l[j].0));
    assert(seq![start].push(w[1]) =~= w.take(2));
    assert(0 <= j < f0.len() && 2 <= 2 <= w.len() && f0[j].stops == w.take(2));
    assert(sr_covers(f0, u32::MAX as int, g, w));
    lemma_sr_state_covers(g, start, dest, f0, k, w);
}

/// Once the shortest-route search has emptied its frontier, every further
/// round leaves its state unchanged.
proof fn lemma_sr_stable(g: AdjView, dest: Seq<char>, f0: Seq<RouteModel>, k: nat, j: nat)
    requires
        sr_done(g, dest, f0, k),
        k <= j,
    ensures
        sr_state(g, dest, f0, j) == sr_state(g, dest, f0, k),
    decreases j - k,
{
    if j > k {
        lemma_sr_stable(g, dest, f0, k, (j - 1) as nat);
        assert(sr_state(g, dest, f0, (j - 1) as nat).0 =~= Seq::<RouteModel>::empty());
        assert(sr_round(g, dest, Seq::<RouteModel>::empty(), sr_state(g, dest, f0, k).1).0 =~= sr_state(
            g,
            dest,
            f0,
            k,
        ).0);
    }
}

/// The shortest-route search gives one answer however long it is run: any
/// two finished round counts agree.  With the search contract this says
/// that repeating the query on the same graph returns the same result.
pub proof fn lemma_sr_answer_unique(
    g: AdjView,
    dest: Seq<char>,
    f0: Seq<RouteModel>,
    k1: nat,
    k2: nat,
)
    requires
        sr_done(g, dest, f0, k1),
        sr_done(g, dest, f0, k2),
    ensures
        sr_answer(g, dest, f0, k1) == sr_answer(g, dest, f0, k2),
{
    if k1 <= k2 {
        lemma_sr_stable(g, dest, f0, k1, k2);
    } else {
        lemma_sr_stable(g, dest, f0, k2, k1);
    }
}

/// Once the distance-bounded count has emptied its frontier, every further
/// round leaves its state, and so its count, unchanged.
proof fn lemma_rl_stable(
    g: AdjView,
    dest: Seq<char>,
    ceiling: int,
    f0: Seq<RouteModel>,
    k: nat,
    j: nat,
)
    requires
        rl_done(g, dest, ceiling, f0, k),
        k <= j,
    ensures
        rl_state(g, dest, ceiling, f0, j) == rl_state(g, dest, ceiling, f0, k),
    decreases j - k,
{
    if j > k {
        lemma_rl_stable(g, dest, ceiling, f0, k, (j - 1) as nat);
        assert(rl_state(g, dest, ceiling, f0, (j - 1) as nat).0 =~= Seq::<RouteModel>::empty());
        assert(rl_round(g, dest, ceiling, Seq::<RouteModel>::empty()).0 =~= rl_state(
            g,
            dest,
            ceiling,
            f0,
            k,
        ).0);
    }
}

/// The distance-bounded count gives one count however long it is run: any
/// two finished round counts agree.  With the count's contract this says
/// that repeating the query on the same graph returns the same result.
pub proof fn lemma_rl_count_unique(
    g: AdjView,
    dest: Seq<char>,
    ceiling: int,
    f0: Seq<RouteModel>,
    k1: nat,
    k2: nat,
)
    requires
        rl_done(g, dest, ceiling, f0, k1),
        rl_done(g, dest, ceiling, f0, k2),
    ensures
        rl_state(g, dest, ceiling, f0, k1).1 == rl_state(g, dest, ceiling, f0, k2).1,
{
    if k1 <= k2 {
        lemma_rl_stable(g, dest, ceiling, f0, k1, k2);
    } else {
        lemma_rl_stable(g, dest, ceiling, f0, k2, k1);
    }
}

} // verus!
