//! The immutable adjacency structure of the station graph.
//!
//! `RouteMap` holds, for each origin station, the ordered list of its
//! outgoing `(destination, distance)` edges.  It is built once from the
//! textual edge list and never changes afterwards; every query reads it
//! through `get_station`.

use vstd::prelude::*;
use crate::model::{
    AdjView,
    EdgesView,
    adj_station,
    adj_insert,
    edges_insert,
    edges_lookup,
    edge_distance,
    build_adj,
};
use crate::parse::{parse_edges, scan_edges, scan_ok, scan_to_edges, edges_view, GraphError};

verus! {

/// The adjacency structure: stations and their outgoing edges, in first-seen
/// order, with at most one edge per (origin, destination) pair.
#[derive(Debug)]
pub struct RouteMap {
    graph: Vec<(String, Vec<(String, u32)>)>,
}

/// The view of one station's outgoing edge list.
pub open spec fn edges_of(l: Seq<(String, u32)>) -> EdgesView {
    l.map_values(|p: (String, u32)| (p.0@, p.1))
}

/// The view of the whole adjacency vector.
pub open spec fn graph_view(g: Seq<(String, Vec<(String, u32)>)>) -> AdjView {
    g.map_values(|e: (String, Vec<(String, u32)>)| (e.0@, edges_of(e.1@)))
}

impl View for RouteMap {
    type V = AdjView;

    closed spec fn view(&self) -> AdjView {
        graph_view(self.graph@)
    }
}

/// String equality as equality of the character sequences.
pub fn str_eq(a: &str, b: &str) -> (r: bool)
    ensures
        r == (a@ == b@),
{
    let x: String = a.to_owned();
    let y: String = b.to_owned();
    x == y
}

/// Inserting an edge whose origin is known at position `k` rewrites that
/// entry and nothing else.
proof fn lemma_adj_insert_at(g: AdjView, o: Seq<char>, d: Seq<char>, w: u32, k: int)
    requires
        0 <= k < g.len(),
        g[k].0 == o,
        forall|m: int| 0 <= m < k ==> (#[trigger] g[m]).0 != o,
    ensures
        adj_insert(g, o, d, w) =~= g.update(k, (o, edges_insert(g[k].1, d, w))),
    decreases k,
{
    if k == 0 {
    } else {
        lemma_adj_insert_at(g.skip(1), o, d, w, k - 1);
        assert(g.skip(1).update(k - 1, (o, edges_insert(g[k].1, d, w))) =~= g.update(
            k,
            (o, edges_insert(g[k].1, d, w)),
        ).skip(1));
    }
}

/// Inserting an edge whose origin is unknown appends a new entry.
proof fn lemma_adj_insert_missing(g: AdjView, o: Seq<char>, d: Seq<char>, w: u32)
    requires
        forall|m: int| 0 <= m < g.len() ==> (#[trigger] g[m]).0 != o,
    ensures
        adj_insert(g, o, d, w) =~= g.push((o, seq![(d, w)])),
    decreases g.len(),
{
    if g.len() > 0 {
        lemma_adj_insert_missing(g.skip(1), o, d, w);
        assert(g.skip(1).push((o, seq![(d, w)])) =~= g.push((o, seq![(d, w)])).skip(1));
    }
}

/// Overwriting an edge whose destination is known at position `t` rewrites
/// that pair and nothing else.
proof fn lemma_edges_insert_at(l: EdgesView, d: Seq<char>, w: u32, t: int)
    requires
        0 <= t < l.len(),
        l[t].0 == d,
        forall|m: int| 0 <= m < t ==> (#[trigger] l[m]).0 != d,
    ensures
        edges_insert(l, d, w) =~= l.update(t, (d, w)),
    decreases t,
{
    if t == 0 {
    } else {
        lemma_edges_insert_at(l.skip(1), d, w, t - 1);
        assert(l.skip(1).update(t - 1, (d, w)) =~= l.update(t, (d, w)).skip(1));
    }
}

/// Inserting an edge to a new destination appends it.
proof fn lemma_edges_insert_missing(l: EdgesView, d: Seq<char>, w: u32)
    requires
        forall|m: int| 0 <= m < l.len() ==> (#[trigger] l[m]).0 != d,
    ensures
        edges_insert(l, d, w) =~= l.push((d, w)),
    decreases l.len(),
{
    if l.len() > 0 {
        lemma_edges_insert_missing(l.skip(1), d, w);
        assert(l.skip(1).push((d, w)) =~= l.push((d, w)).skip(1));
    }
}

/// Position of the first edge of `lst` whose destination is `d`.
#[verifier::loop_isolation(false)]
fn find_edge(lst: &Vec<(String, u32)>, d: &str) -> (r: Option<usize>)
    ensures
        match r {
            Some(t) => t < lst@.len() && edges_of(lst@)[t as int].0 == d@ && (forall|m: int|
                0 <= m < t ==> (#[trigger] edges_of(lst@)[m]).0 != d@),
            None => forall|m: int|
                0 <= m < lst@.len() ==> (#[trigger] edges_of(lst@)[m]).0 != d@,
        },
{
    let mut t: usize = 0;
    while t < lst.len()
        invariant
            t <= lst.len(),
            forall|m: int| 0 <= m < t ==> (#[trigger] edges_of(lst@)[m]).0 != d@,
        decreases lst.len() - t,
    {
        if str_eq(lst[t].0.as_str(), d) {
            return Some(t);
        }
        t = t + 1;
    }
    None
}

/// Position of the first entry of `g` whose origin is `o`.
#[verifier::loop_isolation(false)]
fn find_station(g: &Vec<(String, Vec<(String, u32)>)>, o: &str) -> (r: Option<usize>)
    ensures
        match r {
            Some(k) => k < g@.len() && graph_view(g@)[k as int].0 == o@ && (forall|m: int|
                0 <= m < k ==> (#[trigger] graph_view(g@)[m]).0 != o@),
            None => forall|m: int|
                0 <= m < g@.len() ==> (#[trigger] graph_view(g@)[m]).0 != o@,
        },
{
    let mut k: usize = 0;
    while k < g.len()
        invariant
            k <= g.len(),
            forall|m: int| 0 <= m < k ==> (#[trigger] graph_view(g@)[m]).0 != o@,
        decreases g.len() - k,
    {
        if str_eq(g[k].0.as_str(), o) {
            return Some(k);
        }
        k = k + 1;
    }
    None
}

/// Insert one edge into the adjacency vector, overwriting the distance when
/// the (origin, destination) pair is already present (last write wins).
fn add_edge(g: &mut Vec<(String, Vec<(String, u32)>)>, o: String, d: String, w: u32)
    ensures
        graph_view(final(g)@) == adj_insert(graph_view(old(g)@), o@, d@, w),
{
    let ghost gv = graph_view(g@);
    match find_station(g, o.as_str()) {
        Some(k) => {
            let (key, mut lst) = g.remove(k);
            let ghost gv_rem = graph_view(g@);
            let ghost lv = edges_of(lst@);
            proof {
                assert(lv == gv[k as int].1);
            }
            match find_edge(&lst, d.as_str()) {
                Some(t) => {
                    lst.remove(t);
                    lst.insert(t, (d, w));
                    proof {
                        lemma_edges_insert_at(lv, d@, w, t as int);
                        assert(edges_of(lst@) =~= lv.update(t as int, (d@, w)));
                        assert(edges_of(lst@) == edges_insert(lv, d@, w));
                    }
                },
                None => {
                    lst.push((d, w));
                    proof {
                        lemma_edges_insert_missing(lv, d@, w);
                        assert(edges_of(lst@) =~= lv.push((d@, w)));
                        assert(edges_of(lst@) == edges_insert(lv, d@, w));
                    }
                },
            }
            g.insert(k, (key, lst));
            proof {
                lemma_adj_insert_at(gv, o@, d@, w, k as int);
                assert(graph_view(g@) =~= gv.update(k as int, (o@, edges_insert(lv, d@, w))));
            }
        },
        None => {
            let mut nl: Vec<(String, u32)> = Vec::new();
            nl.push((d, w));
            proof {
                assert(edges_of(nl@) =~= seq![(d@, w)]);
            }
            g.push((o, nl));
            proof {
                lemma_adj_insert_missing(gv, o@, d@, w);
                assert(graph_view(g@) =~= gv.push((o@, seq![(d@, w)])));
            }
        },
    }
}

impl RouteMap {
    /// Build the graph from the edge-list text.  Succeeds exactly when every
    /// distance token of the scan fits a `u32`; the resulting adjacency
    /// structure is the in-order insertion of the scanned edges, with the
    /// last write to an (origin, destination) pair winning.
    pub fn new(input: &str) -> (r: Result<RouteMap, GraphError>)
        ensures
            scan_ok(scan_edges(input@)) ==> (r is Ok && r->Ok_0@ == build_adj(
                scan_to_edges(scan_edges(input@)),
            )),
            !scan_ok(scan_edges(input@)) ==> r == Result::<RouteMap, GraphError>::Err(
                GraphError::MalformedEdge,
            ),
    {
        let edges = match parse_edges(input) {
            Ok(e) => e,
            Err(e) => {
                return Err(e);
            },
        };
        let ghost ev = edges_view(edges@);
        let mut g: Vec<(String, Vec<(String, u32)>)> = Vec::new();
        let mut idx: usize = 0;
        proof {
            assert(graph_view(g@) =~= build_adj(ev.take(0)));
        }
        while idx < edges.len()
            invariant
                idx <= edges.len(),
                ev == edges_view(edges@),
                graph_view(g@) == build_adj(ev.take(idx as int)),
            decreases edges.len() - idx,
        {
            let o = edges[idx].0.clone();
            let d = edges[idx].1.clone();
            let w = edges[idx].2;
            add_edge(&mut g, o, d, w);
            proof {
                assert(ev.take(idx + 1).take(idx as int) =~= ev.take(idx as int));
                assert(ev.take(idx + 1)[idx as int] == ev[idx as int]);
            }
            idx = idx + 1;
        }
        proof {
            assert(ev.take(edges@.len() as int) =~= ev);
        }
        Ok(RouteMap { graph: g })
    }

    /// The outgoing edges of `s`, or `None` if `s` has none.
    #[verifier::loop_isolation(false)]
    pub fn get_station<'a>(&'a self, s: &str) -> (r: Option<&'a Vec<(String, u32)>>)
        ensures
            match r {
                Some(l) => adj_station(self@, s@) == Some(edges_of(l@)),
                None => adj_station(self@, s@) is None,
            },
    {
        proof {
            assert(self@.skip(0) =~= self@);
        }
        let mut k: usize = 0;
        while k < self.graph.len()
            invariant
                k <= self.graph.len(),
                adj_station(self@, s@) == adj_station(self@.skip(k as int), s@),
            decreases self.graph.len() - k,
        {
            if str_eq(self.graph[k].0.as_str(), s) {
                proof {
                    assert(self@.skip(k as int)[0] == self@[k as int]);
                }
                return Some(&self.graph[k].1);
            }
            proof {
                assert(self@.skip(k as int)[0] == self@[k as int]);
                assert(self@.skip(k as int).skip(1) =~= self@.skip(k as int + 1));
            }
            k = k + 1;
        }
        proof {
            assert(self@.skip(self.graph@.len() as int) =~= Seq::<
                (Seq<char>, EdgesView),
            >::empty());
        }
        None
    }

    /// Single-hop distance from `o` to `d`, or `None` if `o` has no outgoing
    /// edges or none of them leads to `d`.
    #[verifier::loop_isolation(false)]
    pub fn lookup(&self, o: &str, d: &str) -> (r: Option<u32>)
        ensures
            r == edge_distance(self@, o@, d@),
    {
        match self.get_station(o) {
            None => None,
            Some(lst) => {
                let ghost lv = edges_of(lst@);
                proof {
                    assert(lv.skip(0) =~= lv);
                }
                let mut t: usize = 0;
                while t < lst.len()
                    invariant
                        t <= lst.len(),
                        edges_lookup(lv, d@) == edges_lookup(lv.skip(t as int), d@),
                    decreases lst.len() - t,
                {
                    if str_eq(lst[t].0.as_str(), d) {
                        proof {
                            assert(lv.skip(t as int)[0] == lv[t as int]);
                        }
                        return Some(lst[t].1);
                    }
                    proof {
                        assert(lv.skip(t as int)[0] == lv[t as int]);
                        assert(lv.skip(t as int).skip(1) =~= lv.skip(t as int + 1));
                    }
                    t = t + 1;
                }
                proof {
                    assert(lv.skip(lst@.len() as int) =~= Seq::<(Seq<char>, u32)>::empty());
                }
                None
            },
        }
    }
}

} // verus!
