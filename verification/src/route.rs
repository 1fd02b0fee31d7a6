//! Partial routes used by the traversal queries.

use vstd::prelude::*;
use crate::model::RouteModel;

verus! {

/// One concrete walk through the graph: the stations visited, in order, and
/// the distance accumulated over its hops.
#[derive(Debug)]
pub struct Route {
    pub distance: u64,
    pub stops: Vec<String>,
}

impl View for Route {
    type V = RouteModel;

    open spec fn view(&self) -> RouteModel {
        RouteModel { stops: self.stops@.map_values(|s: String| s@), dist: self.distance as int }
    }
}

impl Route {
    /// The station this route currently stands at: its last stop.
    pub fn current_station(&self) -> (r: &str)
        requires
            self@.stops.len() > 0,
        ensures
            r@ == self@.stops.last(),
    {
        self.stops[self.stops.len() - 1].as_str()
    }
}

/// Copy a stop list, keeping its view.
pub(crate) fn clone_stops(v: &Vec<String>) -> (r: Vec<String>)
    ensures
        r@.map_values(|s: String| s@) == v@.map_values(|s: String| s@),
{
    let mut r: Vec<String> = Vec::new();
    let mut i: usize = 0;
    while i < v.len()
        invariant
            i <= v.len(),
            r@.len() == i,
            forall|m: int| 0 <= m < i ==> r@[m]@ == v@[m]@,
        decreases v.len() - i,
    {
        r.push(v[i].clone());
        i = i + 1;
    }
    proof {
        assert(r@.map_values(|s: String| s@) =~= v@.map_values(|s: String| s@));
    }
    r
}

/// Copy a route, keeping its view.
pub(crate) fn clone_route(r: &Route) -> (c: Route)
    ensures
        c@ == r@,
{
    Route { distance: r.distance, stops: clone_stops(&r.stops) }
}

} // verus!
