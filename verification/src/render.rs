//! Turning query results into output strings, and the named queries.

use vstd::prelude::*;
use vstd::string::StringExecFns;
use crate::engine::stop_views;
use crate::graph::RouteMap;
use crate::model::{
    as_int_opt,
    circ_spec,
    count_at,
    expand_route,
    frontier_after,
    init_route,
    lemma_circ_spec_nonneg,
    lemma_count_at_nonneg,
    lemma_path_distance_nonneg,
    lemma_rl_state_nonneg,
    path_distance,
    positive_distances,
    rl_done,
    rl_state,
    sr_answer,
    sr_done,
};

verus! {

/// The ten named queries of the fixed battery.
#[derive(Debug, Clone, Copy)]
pub enum Command {
    ABCDistance,
    ADDistance,
    ADCDistance,
    AEBCDDistance,
    AEDDistance,
    CCircular,
    ACFourStop,
    ACExpress,
    BCircle,
    CLessThanCircular,
}

/// The one-character string for a decimal digit.
pub open spec fn digit_lit(n: nat) -> Seq<char> {
    if n == 0 {
        "0"@
    } else if n == 1 {
        "1"@
    } else if n == 2 {
        "2"@
    } else if n == 3 {
        "3"@
    } else if n == 4 {
        "4"@
    } else if n == 5 {
        "5"@
    } else if n == 6 {
        "6"@
    } else if n == 7 {
        "7"@
    } else if n == 8 {
        "8"@
    } else {
        "9"@
    }
}

/// The decimal rendering of a number, most significant digit first.
pub open spec fn dec_str(n: nat) -> Seq<char>
    decreases n,
{
    if n < 10 {
        digit_lit(n)
    } else {
        dec_str(n / 10) + digit_lit(n % 10)
    }
}

/// The output line body for a query result: its decimal value, or the
/// sentinel text when there is none.
pub open spec fn render_int(o: Option<int>) -> Seq<char> {
    match o {
        None => "NO SUCH ROUTE"@,
        Some(d) => dec_str(d as nat),
    }
}

/// A mathematical result squeezed into what a `u32` query can report.
pub open spec fn clamp_opt(o: Option<int>) -> Option<int> {
    match o {
        None => None,
        Some(d) => if d <= u32::MAX as int {
            Some(d)
        } else {
            None
        },
    }
}

fn digit_str(n: u32) -> (s: &'static str)
    requires
        n < 10,
    ensures
        s@ == digit_lit(n as nat),
{
    if n == 0 {
        "0"
    } else if n == 1 {
        "1"
    } else if n == 2 {
        "2"
    } else if n == 3 {
        "3"
    } else if n == 4 {
        "4"
    } else if n == 5 {
        "5"
    } else if n == 6 {
        "6"
    } else if n == 7 {
        "7"
    } else if n == 8 {
        "8"
    } else {
        "9"
    }
}

/// The decimal rendering of a `u32`.
pub fn u32_to_string(n: u32) -> (s: String)
    ensures
        s@ == dec_str(n as nat),
    decreases n,
{
    if n < 10 {
        digit_str(n).to_owned()
    } else {
        let mut s = u32_to_string(n / 10);
        s.append(digit_str(n % 10));
        s
    }
}

/// A query result as an output line body.
fn render_result(o: Option<u32>) -> (s: String)
    ensures
        s@ == render_int(as_int_opt(o)),
{
    match o {
        Some(n) => u32_to_string(n),
        None => "NO SUCH ROUTE".to_owned(),
    }
}

impl RouteMap {
    /// Run one named query of the fixed battery and render its result:
    /// the decimal value, or `NO SUCH ROUTE` where there is none.
    pub fn eval_cmd(&self, cmd: &Command) -> (r: String)
        ensures
            ({
                let g = self@;
                match cmd {
                    Command::ABCDistance => r@ == render_int(
                        clamp_opt(path_distance(g, seq!["A"@, "B"@, "C"@])),
                    ),
                    Command::ADDistance => r@ == render_int(
                        clamp_opt(path_distance(g, seq!["A"@, "D"@])),
                    ),
                    Command::ADCDistance => r@ == render_int(
                        clamp_opt(path_distance(g, seq!["A"@, "D"@, "C"@])),
                    ),
                    Command::AEBCDDistance => r@ == render_int(
                        clamp_opt(path_distance(g, seq!["A"@, "E"@, "B"@, "C"@, "D"@])),
                    ),
                    Command::AEDDistance => r@ == render_int(
                        clamp_opt(path_distance(g, seq!["A"@, "E"@, "D"@])),
                    ),
                    Command::CCircular => r@ == render_int(
                        clamp_opt(circ_spec(g, "C"@, seq!["C"@], 3)),
                    ),
                    Command::ACFourStop => r@ == render_int(
                        clamp_opt(
                            Some(
                                count_at(
                                    frontier_after(g, expand_route(g, init_route("A"@)), 4),
                                    "B"@,
                                ),
                            ),
                        ),
                    ),
                    Command::ACExpress => positive_distances(g) ==> exists|k: nat|
                        #[trigger] sr_done(g, "C"@, expand_route(g, init_route("A"@)), k) && r@
                            == render_int(sr_answer(g, "C"@, expand_route(g, init_route("A"@)), k)),
                    Command::BCircle => positive_distances(g) ==> exists|k: nat|
                        #[trigger] sr_done(g, "B"@, expand_route(g, init_route("B"@)), k) && r@
                            == render_int(sr_answer(g, "B"@, expand_route(g, init_route("B"@)), k)),
                    Command::CLessThanCircular => positive_distances(g) ==> ((exists|k: nat|
                        #[trigger] rl_done(g, "C"@, 30, expand_route(g, init_route("C"@)), k) && r@
                            == render_int(
                            clamp_opt(
                                Some(rl_state(g, "C"@, 30, expand_route(g, init_route("C"@)), k).1),
                            ),
                        )) || (r@ == "NO SUCH ROUTE"@ && exists|k: nat|
                        (#[trigger] rl_state(
                            g,
                            "C"@,
                            30,
                            expand_route(g, init_route("C"@)),
                            k,
                        )).1 > u32::MAX as int)),
                }
            }),
    {
        match cmd {
            Command::ABCDistance => {
                let mut v: Vec<&str> = Vec::new();
                v.push("A");
                v.push("B");
                v.push("C");
                proof {
                    assert(stop_views(v@) =~= seq!["A"@, "B"@, "C"@]);
                }
                let q = self.route_distance(v.as_slice());
                proof {
                    lemma_path_distance_nonneg(self@, stop_views(v@));
                    assert(as_int_opt(q) == clamp_opt(path_distance(self@, stop_views(v@))));
                }
                render_result(q)
            },
            Command::ADDistance => {
                let mut v: Vec<&str> = Vec::new();
                v.push("A");
                v.push("D");
                proof {
                    assert(stop_views(v@) =~= seq!["A"@, "D"@]);
                }
                let q = self.route_distance(v.as_slice());
                proof {
                    lemma_path_distance_nonneg(self@, stop_views(v@));
                    assert(as_int_opt(q) == clamp_opt(path_distance(self@, stop_views(v@))));
                }
                render_result(q)
            },
            Command::ADCDistance => {
                let mut v: Vec<&str> = Vec::new();
                v.push("A");
                v.push("D");
                v.push("C");
                proof {
                    assert(stop_views(v@) =~= seq!["A"@, "D"@, "C"@]);
                }
                let q = self.route_distance(v.as_slice());
                proof {
                    lemma_path_distance_nonneg(self@, stop_views(v@));
                    assert(as_int_opt(q) == clamp_opt(path_distance(self@, stop_views(v@))));
                }
                render_result(q)
            },
            Command::AEBCDDistance => {
                let mut v: Vec<&str> = Vec::new();
                v.push("A");
                v.push("E");
                v.push("B");
                v.push("C");
                v.push("D");
                proof {
                    assert(stop_views(v@) =~= seq!["A"@, "E"@, "B"@, "C"@, "D"@]);
                }
                let q = self.route_distance(v.as_slice());
                proof {
                    lemma_path_distance_nonneg(self@, stop_views(v@));
                    assert(as_int_opt(q) == clamp_opt(path_distance(self@, stop_views(v@))));
                }
                render_result(q)
            },
            Command::AEDDistance => {
                let mut v: Vec<&str> = Vec::new();
                v.push("A");
                v.push("E");
                v.push("D");
                proof {
                    assert(stop_views(v@) =~= seq!["A"@, "E"@, "D"@]);
                }
                let q = self.route_distance(v.as_slice());
                proof {
                    lemma_path_distance_nonneg(self@, stop_views(v@));
                    assert(as_int_opt(q) == clamp_opt(path_distance(self@, stop_views(v@))));
                }
                render_result(q)
            },
            Command::CCircular => {
                let q = self.circular_route("C", 3);
                proof {
                    lemma_circ_spec_nonneg(self@, "C"@, seq!["C"@], 3);
                    assert(as_int_opt(q) == clamp_opt(circ_spec(self@, "C"@, seq!["C"@], 3)));
                }
                render_result(q)
            },
            Command::ACFourStop => {
                let q = self.exact_stops("A", "B", 4);
                proof {
                    lemma_count_at_nonneg(
                        frontier_after(self@, expand_route(self@, init_route("A"@)), 4),
                        "B"@,
                    );
                }
                render_result(q)
            },
            Command::ACExpress => {
                let q = self.shortest_route("A", "C");
                let r = render_result(q);
                proof {
                    if positive_distances(self@) {
                        let f0 = expand_route(self@, init_route("A"@));
                        let k = choose|k: nat|
                            #[trigger] sr_done(self@, "C"@, f0, k) && as_int_opt(q) == sr_answer(
                                self@,
                                "C"@,
                                f0,
                                k,
                            );
                        assert(sr_done(self@, "C"@, f0, k) && r@ == render_int(
                            sr_answer(self@, "C"@, f0, k),
                        ));
                    }
                }
                r
            },
            Command::BCircle => {
                let q = self.shortest_route("B", "B");
                let r = render_result(q);
                proof {
                    if positive_distances(self@) {
                        let f0 = expand_route(self@, init_route("B"@));
                        let k = choose|k: nat|
                            #[trigger] sr_done(self@, "B"@, f0, k) && as_int_opt(q) == sr_answer(
                                self@,
                                "B"@,
                                f0,
                                k,
                            );
                        assert(sr_done(self@, "B"@, f0, k) && r@ == render_int(
                            sr_answer(self@, "B"@, f0, k),
                        ));
                    }
                }
                r
            },
            Command::CLessThanCircular => {
                let q = self.routes_less_than("C", "C", 30);
                let r = render_result(q);
                proof {
                    if positive_distances(self@) {
                        let f0 = expand_route(self@, init_route("C"@));
                        assert forall|k: nat| rl_state(self@, "C"@, 30, f0, k).1 >= 0 by {
                            lemma_rl_state_nonneg(self@, "C"@, 30, f0, k);
                        }
                        if exists|k: nat|
                            #[trigger] rl_done(self@, "C"@, 30, f0, k) && ({
                                let c = rl_state(self@, "C"@, 30, f0, k).1;
                                (c <= u32::MAX as int ==> q == Some(c as u32)) && (c
                                    > u32::MAX as int ==> q is None)
                            }) {
                            let k = choose|k: nat|
                                #[trigger] rl_done(self@, "C"@, 30, f0, k) && ({
                                    let c = rl_state(self@, "C"@, 30, f0, k).1;
                                    (c <= u32::MAX as int ==> q == Some(c as u32)) && (c
                                        > u32::MAX as int ==> q is None)
                                });
                            assert(rl_done(self@, "C"@, 30, f0, k) && r@ == render_int(
                                clamp_opt(Some(rl_state(self@, "C"@, 30, f0, k).1)),
                            ));
                        }
                    }
                }
                r
            },
        }
    }
}

} // verus!
