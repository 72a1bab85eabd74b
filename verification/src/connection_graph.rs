//! The time-expanded connection graph: vertex numbering, travel and
//! in-station edges, and the vertex-to-station reverse lookup.
//!
//! Every station owns a contiguous ascending block of vertex ids: an Init
//! vertex, a Final vertex, then one vertex per distinct time of day at
//! which some valid journey passes the station, in ascending time order.

use vstd::prelude::*;

verus! {

use crate::calendar::SECONDS_PER_DAY;
use crate::digraph::DiGraph;
use crate::digraph::connects;
use crate::digraph::graph_add_edge;
use crate::digraph::graph_edges;
use crate::digraph::graph_new;
use crate::digraph::graph_nodes;
use crate::digraph::is_shortest_dist;
use crate::digraph::no_edges;
use crate::digraph::no_nodes;
use crate::digraph::path_cost;
use crate::digraph::reachable;
use crate::feed::MultiConnection;
use crate::feed::Passing;
use crate::feed::journey_valid;
use crate::feed::journey_wf;
use crate::feed::mc_wf;
use crate::feed::passing_wf;
use crate::feed::stops_distinct;
use crate::feed::sub_wf;

/// One station's share of the vertex id space: its Init and Final vertex
/// ids and its distinct recorded times of day, ascending; the time at
/// position `k` owns vertex id `init + 2 + k`.
#[derive(Debug)]
pub struct Station {
    pub init: usize,
    pub fin: usize,
    pub times: Vec<u32>,
}

/// Strictly ascending times.
pub open spec fn sorted_strict(s: Seq<u32>) -> bool {
    forall|i: int, j: int| 0 <= i < j < s.len() ==> s[i] < s[j]
}

/// One past the last vertex id of a station's block.
pub open spec fn block_end(st: Station) -> int {
    st.init + 2 + st.times@.len()
}

/// The vertex id layout invariant: per station `fin == init + 1`, times
/// strictly ascending and below one day, blocks contiguous from zero in
/// station order.
pub open spec fn layout_wf(stations: Seq<Station>) -> bool {
    &&& forall|s: int| 0 <= s < stations.len()
        ==> (#[trigger] stations[s]).fin == stations[s].init + 1
    &&& forall|s: int| 0 <= s < stations.len() ==> sorted_strict((#[trigger] stations[s]).times@)
    &&& forall|s: int, k: int| 0 <= s < stations.len() && 0 <= k < stations[s].times@.len()
        ==> (#[trigger] stations[s].times@[k]) < SECONDS_PER_DAY
    &&& (stations.len() > 0 ==> stations[0].init == 0)
    &&& forall|s: int| 1 <= s < stations.len()
        ==> (#[trigger] stations[s]).init == block_end(stations[s - 1])
}

/// The total number of vertex ids handed out.
pub open spec fn vert_count(stations: Seq<Station>) -> int {
    if stations.len() == 0 {
        0
    } else {
        block_end(stations.last())
    }
}

/// The vertex id of time position `k` of station `s`.
pub open spec fn time_vert(stations: Seq<Station>, s: int, k: int) -> int {
    stations[s].init + 2 + k
}

/// Vertex id `id` lies in station `s`'s block.
pub open spec fn owns(stations: Seq<Station>, s: int, id: int) -> bool {
    &&& 0 <= s < stations.len()
    &&& stations[s].init <= id < block_end(stations[s])
}

/// `u` is the vertex of time position `k` of station `s`.
pub open spec fn time_vert_of(stations: Seq<Station>, s: int, k: int, u: int) -> bool {
    &&& 0 <= s < stations.len()
    &&& 0 <= k < stations[s].times@.len()
    &&& u == time_vert(stations, s, k)
}

/// `u` is some station's time vertex.
pub open spec fn is_time_vert(stations: Seq<Station>, u: int) -> bool {
    exists|sk: (int, int)| time_vert_of(stations, sk.0, sk.1, u)
}

/// `u` is some station's Init vertex.
pub open spec fn is_init_vert(stations: Seq<Station>, u: int) -> bool {
    exists|s: int| 0 <= s < stations.len() && u == (#[trigger] stations[s]).init
}

/// `u` is some station's Final vertex.
pub open spec fn is_fin_vert(stations: Seq<Station>, u: int) -> bool {
    exists|s: int| 0 <= s < stations.len() && u == (#[trigger] stations[s]).fin
}

/// The time of day recorded at a time vertex.
pub open spec fn vert_time(stations: Seq<Station>, u: int) -> u32 {
    let sk = choose|sk: (int, int)| time_vert_of(stations, sk.0, sk.1, u);
    stations[sk.0].times@[sk.1]
}

/// Block starts grow with the station index; blocks never overlap.
pub proof fn lemma_layout_monotonic(stations: Seq<Station>, s1: int, s2: int)
    requires
        layout_wf(stations),
        0 <= s1 <= s2 < stations.len(),
    ensures
        stations[s1].init <= stations[s2].init,
        s1 < s2 ==> block_end(stations[s1]) <= stations[s2].init,
    decreases s2 - s1,
{
    if s1 < s2 {
        lemma_layout_monotonic(stations, s1, s2 - 1);
    }
}

/// A vertex id lies in at most one station's block.
pub proof fn lemma_owner_unique(stations: Seq<Station>, s1: int, s2: int, id: int)
    requires
        layout_wf(stations),
        owns(stations, s1, id),
        owns(stations, s2, id),
    ensures
        s1 == s2,
{
    if s1 < s2 {
        lemma_layout_monotonic(stations, s1, s2);
    } else if s2 < s1 {
        lemma_layout_monotonic(stations, s2, s1);
    }
}

/// Every vertex id below the count lies in some station's block.
pub proof fn lemma_owner_exists(stations: Seq<Station>, id: int)
    requires
        layout_wf(stations),
        0 <= id < vert_count(stations),
    ensures
        exists|s: int| owns(stations, s, id),
    decreases stations.len(),
{
    let n = stations.len() as int;
    if owns(stations, n - 1, id) {
    } else {
        let prefix = stations.drop_last();
        assert forall|s: int| 0 <= s < prefix.len() implies prefix[s] == stations[s] by {}
        assert(layout_wf(prefix));
        assert(n >= 2) by {
            if n == 1 {
                assert(stations[0].init == 0);
            }
        }
        assert(vert_count(prefix) == block_end(stations[n - 2]));
        assert(stations[n - 1].init == block_end(stations[n - 2]));
        assert(id < stations[n - 1].init);
        lemma_owner_exists(prefix, id);
        let s = choose|s: int| owns(prefix, s, id);
        assert(owns(stations, s, id));
    }
}

/// A time vertex determines its station and time position.
pub proof fn lemma_time_vert_unique(
    stations: Seq<Station>,
    s1: int,
    k1: int,
    s2: int,
    k2: int,
    u: int,
)
    requires
        layout_wf(stations),
        time_vert_of(stations, s1, k1, u),
        time_vert_of(stations, s2, k2, u),
    ensures
        s1 == s2,
        k1 == k2,
{
    assert(owns(stations, s1, u));
    assert(owns(stations, s2, u));
    lemma_owner_unique(stations, s1, s2, u);
}

/// The recorded time of a known time vertex.
pub proof fn lemma_vert_time(stations: Seq<Station>, s: int, k: int, u: int)
    requires
        layout_wf(stations),
        time_vert_of(stations, s, k, u),
    ensures
        vert_time(stations, u) == stations[s].times@[k],
        is_time_vert(stations, u),
{
    assert(is_time_vert(stations, u)) by {
        let sk = (s, k);
        assert(time_vert_of(stations, sk.0, sk.1, u));
    }
    let sk = choose|sk: (int, int)| time_vert_of(stations, sk.0, sk.1, u);
    lemma_time_vert_unique(stations, s, k, sk.0, sk.1, u);
}

/// The three vertex kinds of one block never collide.
pub proof fn lemma_vert_kinds(stations: Seq<Station>, u: int)
    requires
        layout_wf(stations),
    ensures
        !(is_init_vert(stations, u) && is_fin_vert(stations, u)),
        !(is_init_vert(stations, u) && is_time_vert(stations, u)),
        !(is_fin_vert(stations, u) && is_time_vert(stations, u)),
{
    if is_init_vert(stations, u) && is_fin_vert(stations, u) {
        let s1 = choose|s: int| 0 <= s < stations.len() && u == (#[trigger] stations[s]).init;
        let s2 = choose|s: int| 0 <= s < stations.len() && u == (#[trigger] stations[s]).fin;
        assert(owns(stations, s1, u));
        assert(owns(stations, s2, u));
        lemma_owner_unique(stations, s1, s2, u);
    }
    if is_init_vert(stations, u) && is_time_vert(stations, u) {
        let s1 = choose|s: int| 0 <= s < stations.len() && u == (#[trigger] stations[s]).init;
        let sk = choose|sk: (int, int)| time_vert_of(stations, sk.0, sk.1, u);
        assert(owns(stations, s1, u));
        assert(owns(stations, sk.0, u));
        lemma_owner_unique(stations, s1, sk.0, u);
    }
    if is_fin_vert(stations, u) && is_time_vert(stations, u) {
        let s1 = choose|s: int| 0 <= s < stations.len() && u == (#[trigger] stations[s]).fin;
        let sk = choose|sk: (int, int)| time_vert_of(stations, sk.0, sk.1, u);
        assert(owns(stations, s1, u));
        assert(owns(stations, sk.0, u));
        lemma_owner_unique(stations, s1, sk.0, u);
    }
}

/// Some valid journey passes station `s` at time of day `t`, at passing
/// `i` of journey `j` of feed `c`.
pub open spec fn station_time_at(
    mc: MultiConnection,
    date: u32,
    c: int,
    j: int,
    i: int,
    s: int,
    t: u32,
) -> bool {
    &&& 0 <= c < mc.connections@.len()
    &&& 0 <= j < mc.connections@[c].journeys@.len()
    &&& journey_valid(mc.connections@[c], mc.connections@[c].journeys@[j], date)
    &&& 0 <= i < mc.connections@[c].journeys@[j].passings@.len()
    &&& mc.connections@[c].journeys@[j].passings@[i].stop_point == s
    &&& (mc.connections@[c].journeys@[j].passings@[i].arrival == Some(t)
        || mc.connections@[c].journeys@[j].passings@[i].departure == Some(t))
}

/// Some valid journey passes station `s` at time of day `t`.
pub open spec fn station_time(mc: MultiConnection, date: u32, s: int, t: u32) -> bool {
    exists|c: int, j: int, i: int| station_time_at(mc, date, c, j, i, s, t)
}

/// Inserts a time into a strictly sorted vector, keeping it sorted and
/// duplicate-free.
fn insert_sorted(v: &mut Vec<u32>, t: u32)
    requires
        sorted_strict(old(v)@),
    ensures
        sorted_strict(final(v)@),
        forall|x: u32| final(v)@.contains(x) <==> old(v)@.contains(x) || x == t,
{
    let mut pos: usize = 0;
    while pos < v.len() && v[pos as usize] < t
        invariant
            pos <= v@.len(),
            sorted_strict(v@),
            v == old(v),
            forall|i: int| 0 <= i < pos ==> v@[i] < t,
        decreases v@.len() - pos,
    {
        pos = pos + 1;
    }
    if pos < v.len() {
        let cur = v[pos];
        if cur == t {
            proof {
                assert forall|x: u32| v@.contains(x) <==> old(v)@.contains(x) || x == t by {
                    if x == t {
                        assert(v@[pos as int] == t);
                    }
                }
            }
            return ;
        }
        proof {
            assert(v@[pos as int] > t);
        }
    }
    let ghost pre = v@;
    v.insert(pos, t);
    proof {
        assert(v@ == pre.insert(pos as int, t));
        assert forall|i: int, j: int| 0 <= i < j < v@.len() implies v@[i] < v@[j] by {
            let pi = pos as int;
            if i < pi && j < pi {
            } else if i < pi && j == pi {
            } else if i < pi && j > pi {
                assert(v@[j] == pre[j - 1]);
                assert(pre[j - 1] >= pre[pi]) by {
                    if j - 1 > pi {
                        assert(pre[pi] < pre[j - 1]);
                    }
                }
                assert(pre[pi] > t);
            } else if i == pi {
                assert(v@[j] == pre[j - 1]);
                assert(pre[j - 1] >= pre[pi]) by {
                    if j - 1 > pi {
                        assert(pre[pi] < pre[j - 1]);
                    }
                }
            } else {
                assert(v@[i] == pre[i - 1]);
                assert(v@[j] == pre[j - 1]);
            }
        }
        assert forall|x: u32| v@.contains(x) <==> pre.contains(x) || x == t by {
            if v@.contains(x) {
                let ix = choose|ix: int| 0 <= ix < v@.len() && v@[ix] == x;
                if ix < pos as int {
                    assert(pre[ix] == x);
                } else if ix == pos as int {
                } else {
                    assert(pre[ix - 1] == x);
                }
            }
            if pre.contains(x) {
                let ix = choose|ix: int| 0 <= ix < pre.len() && pre[ix] == x;
                if ix < pos as int {
                    assert(v@[ix] == x);
                } else {
                    assert(v@[ix + 1] == x);
                }
            }
            if x == t {
                assert(v@[pos as int] == x);
            }
        }
        assert(pre == old(v)@);
        assert(forall|x: u32| v@.contains(x) <==> old(v)@.contains(x) || x == t);
    }
}

/// Position of a time known to be recorded in a sorted time list.
fn find_time(times: &Vec<u32>, t: u32) -> (k: usize)
    requires
        times@.contains(t),
    ensures
        (k as int) < times@.len(),
        times@[k as int] == t,
{
    let mut k: usize = 0;
    while k < times.len()
        invariant
            k <= times@.len(),
            forall|i: int| 0 <= i < k ==> times@[i] != t,
        decreases times@.len() - k,
    {
        if times[k] == t {
            return k;
        }
        k = k + 1;
    }
    proof {
        let ix = choose|ix: int| 0 <= ix < times@.len() && times@[ix] == t;
        assert(false);
    }
    0
}

/// The most vertex ids one station can own: Init, Final, and one vertex
/// per distinct time of day below one day.
pub const BLOCK_MAX: usize = 86402;

/// In a strictly ascending sequence every entry is at least its index.
proof fn lemma_sorted_idx(s: Seq<u32>, k: int)
    requires
        sorted_strict(s),
        0 <= k < s.len(),
    ensures
        s[k] >= k,
    decreases k,
{
    if k > 0 {
        lemma_sorted_idx(s, k - 1);
        assert(s[k - 1] < s[k]);
    }
}

/// Strictly ascending times below one day: at most one per second.
pub proof fn lemma_times_len(s: Seq<u32>)
    requires
        sorted_strict(s),
        forall|k: int| 0 <= k < s.len() ==> s[k] < SECONDS_PER_DAY,
    ensures
        s.len() <= SECONDS_PER_DAY,
{
    if s.len() > SECONDS_PER_DAY {
        lemma_sorted_idx(s, SECONDS_PER_DAY as int);
    }
}

/// Pass two of graph construction: walk the stations in registry order
/// and give each its contiguous block of vertex ids: Init, Final, then
/// one id per recorded time, ascending.
pub(crate) fn number_stations(times: &Vec<Vec<u32>>) -> (stations: Vec<Station>)
    requires
        forall|s: int| 0 <= s < times@.len() ==> sorted_strict((#[trigger] times@[s])@),
        forall|s: int, k: int| 0 <= s < times@.len() && 0 <= k < times@[s]@.len()
            ==> (#[trigger] times@[s]@[k]) < SECONDS_PER_DAY,
        times@.len() * (BLOCK_MAX as int) <= usize::MAX,
    ensures
        stations@.len() == times@.len(),
        layout_wf(stations@),
        forall|s: int| 0 <= s < times@.len() ==> (#[trigger] stations@[s]).times@ == times@[s]@,
        vert_count(stations@) <= times@.len() * (BLOCK_MAX as int),
{
    let n = times.len();
    let mut stations: Vec<Station> = Vec::new();
    let mut next: usize = 0;
    let mut s: usize = 0;
    while s < n
        invariant
            n == times@.len(),
            s == stations@.len(),
            s <= n,
            forall|s2: int| 0 <= s2 < times@.len() ==> sorted_strict((#[trigger] times@[s2])@),
            forall|s2: int, k: int| 0 <= s2 < times@.len() && 0 <= k < times@[s2]@.len()
                ==> (#[trigger] times@[s2]@[k]) < SECONDS_PER_DAY,
            times@.len() * (BLOCK_MAX as int) <= usize::MAX,
            next as int == vert_count(stations@),
            next as int <= (s as int) * (BLOCK_MAX as int),
            layout_wf(stations@),
            forall|s2: int| 0 <= s2 < s ==> (#[trigger] stations@[s2]).times@ == times@[s2]@,
        decreases n - s,
    {
        let src = &times[s];
        let mut ts: Vec<u32> = Vec::new();
        let mut k: usize = 0;
        while k < src.len()
            invariant
                k <= src@.len(),
                ts@ == src@.take(k as int),
                src == times@[s as int],
                s < times@.len(),
            decreases src@.len() - k,
        {
            ts.push(src[k]);
            proof {
                assert(ts@ =~= src@.take(k as int + 1));
            }
            k = k + 1;
        }
        proof {
            assert(ts@ =~= times@[s as int]@);
            lemma_times_len(ts@);
            assert((s as int + 1) * (BLOCK_MAX as int) <= times@.len() * (BLOCK_MAX as int))
                by (nonlinear_arith)
                requires
                    s as int + 1 <= times@.len(),
            {}
        }
        let len_ts = ts.len();
        let ghost pre = stations@;
        let st = Station { init: next, fin: next + 1, times: ts };
        stations.push(st);
        proof {
            assert(stations@.last() == stations@[s as int]);
            assert forall|s2: int| 0 <= s2 < stations@.len() implies (#[trigger] stations@[s2]).fin
                == stations@[s2].init + 1 by {
                if s2 < s as int {
                    assert(stations@[s2] == pre[s2]);
                }
            }
            assert forall|s2: int| 0 <= s2 < stations@.len() implies sorted_strict(
                (#[trigger] stations@[s2]).times@,
            ) by {
                if s2 < s as int {
                    assert(stations@[s2] == pre[s2]);
                }
            }
            assert forall|s2: int, k2: int|
                0 <= s2 < stations@.len() && 0 <= k2 < stations@[s2].times@.len() implies (
            #[trigger] stations@[s2].times@[k2]) < SECONDS_PER_DAY by {
                if s2 < s as int {
                    assert(stations@[s2] == pre[s2]);
                }
            }
            assert forall|s2: int| 1 <= s2 < stations@.len() implies (#[trigger] stations@[s2]).init
                == block_end(stations@[s2 - 1]) by {
                if s2 < s as int {
                    assert(stations@[s2] == pre[s2]);
                    assert(stations@[s2 - 1] == pre[s2 - 1]);
                } else if s2 == s as int {
                    assert(stations@[s2 - 1] == pre[s2 - 1]);
                    assert(next as int == vert_count(pre));
                }
            }
            assert(layout_wf(stations@));
        }
        next = next + 2 + len_ts;
        s = s + 1;
    }
    stations
}

/// Pass one of graph construction: for every journey valid on the date,
/// record each passing's arrival and departure time of day in that
/// station's ordered set of distinct times.
pub(crate) fn collect_station_times(mc: &MultiConnection, date: u32) -> (times: Vec<Vec<u32>>)
    requires
        mc_wf(*mc),
    ensures
        times@.len() == mc.stops@.len(),
        forall|s: int| 0 <= s < times@.len() ==> sorted_strict((#[trigger] times@[s])@),
        forall|s: int, t: u32| 0 <= s < times@.len()
            ==> ((#[trigger] times@[s]@.contains(t)) <==> station_time(*mc, date, s, t)),
{
    let pairs = mc.valid_journeys(date);
    let mut times: Vec<Vec<u32>> = Vec::new();
    let mut s: usize = 0;
    while s < mc.stops.len()
        invariant
            mc_wf(*mc),
            s == times@.len(),
            s <= mc.stops@.len(),
            forall|q: int| 0 <= q < pairs@.len() ==> {
                let cj = #[trigger] pairs@[q];
                &&& (cj.0 as int) < mc.connections@.len()
                &&& (cj.1 as int) < mc.connections@[cj.0 as int].journeys@.len()
                &&& journey_valid(
                    mc.connections@[cj.0 as int],
                    mc.connections@[cj.0 as int].journeys@[cj.1 as int],
                    date,
                )
            },
            forall|c: int, j: int|
                (0 <= c < mc.connections@.len() && 0 <= j
                    < mc.connections@[c].journeys@.len() && journey_valid(
                    mc.connections@[c],
                    #[trigger] mc.connections@[c].journeys@[j],
                    date,
                )) ==> pairs@.contains((c as usize, j as usize)),
            forall|s2: int| 0 <= s2 < s ==> sorted_strict((#[trigger] times@[s2])@),
            forall|s2: int, t: u32| 0 <= s2 < s
                ==> ((#[trigger] times@[s2]@.contains(t)) <==> station_time(*mc, date, s2, t)),
        decreases mc.stops@.len() - s,
    {
        let mut ts: Vec<u32> = Vec::new();
        let mut q: usize = 0;
        while q < pairs.len()
            invariant
                mc_wf(*mc),
                s < mc.stops@.len(),
                q <= pairs@.len(),
                sorted_strict(ts@),
                forall|q2: int| 0 <= q2 < pairs@.len() ==> {
                    let cj = #[trigger] pairs@[q2];
                    &&& (cj.0 as int) < mc.connections@.len()
                    &&& (cj.1 as int) < mc.connections@[cj.0 as int].journeys@.len()
                    &&& journey_valid(
                        mc.connections@[cj.0 as int],
                        mc.connections@[cj.0 as int].journeys@[cj.1 as int],
                        date,
                    )
                },
                forall|t: u32| ts@.contains(t) ==> station_time(*mc, date, s as int, t),
                forall|q2: int| 0 <= q2 < q ==> {
                    let cj = #[trigger] pairs@[q2];
                    forall|i2: int, t: u32| station_time_at(
                        *mc,
                        date,
                        cj.0 as int,
                        cj.1 as int,
                        i2,
                        s as int,
                        t,
                    ) ==> ts@.contains(t)
                },
            decreases pairs@.len() - q,
        {
            let cj = pairs[q];
            let c = cj.0;
            let j = cj.1;
            let jour = &mc.connections[c].journeys[j];
            let mut i: usize = 0;
            while i < jour.passings.len()
                invariant
                    mc_wf(*mc),
                    s < mc.stops@.len(),
                    q < pairs@.len(),
                    pairs@[q as int] == (c, j),
                    (c as int) < mc.connections@.len(),
                    (j as int) < mc.connections@[c as int].journeys@.len(),
                    jour == mc.connections@[c as int].journeys@[j as int],
                    journey_valid(mc.connections@[c as int], *jour, date),
                    i <= jour.passings@.len(),
                    sorted_strict(ts@),
                    forall|t: u32| ts@.contains(t) ==> station_time(*mc, date, s as int, t),
                    forall|q2: int| 0 <= q2 < q ==> {
                        let cj2 = #[trigger] pairs@[q2];
                        forall|i2: int, t: u32| station_time_at(
                            *mc,
                            date,
                            cj2.0 as int,
                            cj2.1 as int,
                            i2,
                            s as int,
                            t,
                        ) ==> ts@.contains(t)
                    },
                    forall|i2: int, t: u32| 0 <= i2 < i && station_time_at(
                        *mc,
                        date,
                        c as int,
                        j as int,
                        i2,
                        s as int,
                        t,
                    ) ==> ts@.contains(t),
                decreases jour.passings@.len() - i,
            {
                let p = jour.passings[i];
                if p.stop_point == s {
                    if let Some(t) = p.arrival {
                        insert_sorted(&mut ts, t);
                        proof {
                            assert(station_time_at(*mc, date, c as int, j as int, i as int,
                                s as int, t));
                        }
                    }
                    if let Some(t) = p.departure {
                        insert_sorted(&mut ts, t);
                        proof {
                            assert(station_time_at(*mc, date, c as int, j as int, i as int,
                                s as int, t));
                        }
                    }
                }
                i = i + 1;
            }
            q = q + 1;
        }
        proof {
            assert forall|t: u32| ts@.contains(t) <==> station_time(*mc, date, s as int, t) by {
                if station_time(*mc, date, s as int, t) {
                    let (c, j, i) = choose|c: int, j: int, i: int| station_time_at(
                        *mc,
                        date,
                        c,
                        j,
                        i,
                        s as int,
                        t,
                    );
                    vstd::std_specs::vec::axiom_spec_len(&mc.connections);
                    vstd::std_specs::vec::axiom_spec_len(&mc.connections[c].journeys);
                    assert((c as usize) as int == c);
                    assert((j as usize) as int == j);
                    assert(pairs@.contains((c as usize, j as usize)));
                    let q2 = choose|q2: int| 0 <= q2 < pairs@.len() && pairs@[q2] == (
                    c as usize, j as usize);
                    assert(station_time_at(
                        *mc,
                        date,
                        pairs@[q2].0 as int,
                        pairs@[q2].1 as int,
                        i,
                        s as int,
                        t,
                    ));
                }
            }
        }
        times.push(ts);
        s = s + 1;
    }
    times
}

/// The passing at position `i` of journey `j` of feed `c`.
pub open spec fn passing_at(mc: MultiConnection, c: int, j: int, i: int) -> Passing {
    mc.connections@[c].journeys@[j].passings@[i]
}

/// Consecutive passings `i`, `i + 1` of a journey valid on the date, with
/// the departure and the following arrival both present and the arrival
/// strictly later: exactly the pairs that yield a travel edge.
pub open spec fn travel_hop(mc: MultiConnection, date: u32, c: int, j: int, i: int) -> bool {
    &&& 0 <= c < mc.connections@.len()
    &&& 0 <= j < mc.connections@[c].journeys@.len()
    &&& journey_valid(mc.connections@[c], mc.connections@[c].journeys@[j], date)
    &&& 0 <= i < mc.connections@[c].journeys@[j].passings@.len() - 1
    &&& match (passing_at(mc, c, j, i).departure, passing_at(mc, c, j, i + 1).arrival) {
        (Some(td), Some(ta)) => ta > td,
        _ => false,
    }
}

/// `u` is the time vertex of station `s` for time of day `t`.
pub open spec fn vert_for_time(stations: Seq<Station>, s: int, t: u32, u: usize) -> bool {
    exists|k: int| 0 <= k < stations[s].times@.len() && stations[s].times@[k] == t && u as int
        == time_vert(stations, s, k)
}

/// A station records each time at most once, so the time vertex for a
/// recorded time is unique.
pub proof fn lemma_vert_for_time_unique(
    stations: Seq<Station>,
    s: int,
    t: u32,
    u1: usize,
    u2: usize,
)
    requires
        layout_wf(stations),
        0 <= s < stations.len(),
        vert_for_time(stations, s, t, u1),
        vert_for_time(stations, s, t, u2),
    ensures
        u1 == u2,
{
    let k1 = choose|k: int| 0 <= k < stations[s].times@.len() && stations[s].times@[k] == t
        && u1 as int == time_vert(stations, s, k);
    let k2 = choose|k: int| 0 <= k < stations[s].times@.len() && stations[s].times@[k] == t
        && u2 as int == time_vert(stations, s, k);
    if k1 < k2 {
        assert(stations[s].times@[k1] < stations[s].times@[k2]);
    }
    if k2 < k1 {
        assert(stations[s].times@[k2] < stations[s].times@[k1]);
    }
}

/// The travel edge of one hop, as a vertex pair: from the departure-time
/// vertex of the earlier station to the arrival-time vertex of the later.
pub open spec fn hop_edge(
    mc: MultiConnection,
    date: u32,
    stations: Seq<Station>,
    c: int,
    j: int,
    i: int,
    u: usize,
    v: usize,
) -> bool {
    &&& travel_hop(mc, date, c, j, i)
    &&& vert_for_time(
        stations,
        passing_at(mc, c, j, i).stop_point as int,
        passing_at(mc, c, j, i).departure.unwrap(),
        u,
    )
    &&& vert_for_time(
        stations,
        passing_at(mc, c, j, i + 1).stop_point as int,
        passing_at(mc, c, j, i + 1).arrival.unwrap(),
        v,
    )
}

/// `(u, v)` is the travel edge of some hop of some valid journey.
pub open spec fn is_travel_edge(
    mc: MultiConnection,
    date: u32,
    stations: Seq<Station>,
    u: usize,
    v: usize,
) -> bool {
    exists|c: int, j: int, i: int| hop_edge(mc, date, stations, c, j, i, u, v)
}

/// A station block is contained in the handed-out id range.
pub proof fn lemma_block_in_range(stations: Seq<Station>, s: int)
    requires
        layout_wf(stations),
        0 <= s < stations.len(),
    ensures
        block_end(stations[s]) <= vert_count(stations),
        stations[s].init >= 0,
{
    lemma_layout_monotonic(stations, s, stations.len() as int - 1);
    if s < stations.len() - 1 {
        assert(block_end(stations[s]) <= stations[stations.len() - 1].init);
    }
}

/// Pass three of graph construction: for every valid journey and every
/// forward hop between consecutive passings, add a directed travel edge
/// between the two time vertices, weighted by the elapsed seconds.
/// Starting from an empty graph, afterwards the edges are exactly the
/// travel edges, each weighted by the time difference of its endpoints.
pub(crate) fn add_travel_edges(
    g: &mut DiGraph,
    mc: &MultiConnection,
    date: u32,
    stations: &Vec<Station>,
)
    requires
        mc_wf(*mc),
        layout_wf(stations@),
        stations@.len() == mc.stops@.len(),
        vert_count(stations@) <= usize::MAX,
        forall|s: int, t: u32| 0 <= s < stations@.len()
            ==> ((#[trigger] stations@[s].times@.contains(t)) <==> station_time(*mc, date, s, t)),
        graph_edges(*old(g)) == no_edges(),
        graph_nodes(*old(g)) == no_nodes(),
    ensures
        forall|u: usize, v: usize| (#[trigger] graph_edges(*final(g)).contains_key((u, v)))
            <==> is_travel_edge(*mc, date, stations@, u, v),
        forall|u: usize, v: usize| #[trigger] graph_edges(*final(g)).contains_key((u, v))
            ==> graph_edges(*final(g))[(u, v)] as int == vert_time(stations@, v as int) as int
            - vert_time(stations@, u as int) as int,
        forall|n: usize| #[trigger] graph_nodes(*final(g)).contains(n)
            ==> (n as int) < vert_count(stations@),
{
    let pairs = mc.valid_journeys(date);
    let mut q: usize = 0;
    while q < pairs.len()
        invariant
            mc_wf(*mc),
            layout_wf(stations@),
            stations@.len() == mc.stops@.len(),
            vert_count(stations@) <= usize::MAX,
            forall|s: int, t: u32| 0 <= s < stations@.len()
                ==> ((#[trigger] stations@[s].times@.contains(t)) <==> station_time(
                    *mc,
                    date,
                    s,
                    t,
                )),
            q <= pairs@.len(),
            forall|q2: int| 0 <= q2 < pairs@.len() ==> {
                let cj = #[trigger] pairs@[q2];
                &&& (cj.0 as int) < mc.connections@.len()
                &&& (cj.1 as int) < mc.connections@[cj.0 as int].journeys@.len()
                &&& journey_valid(
                    mc.connections@[cj.0 as int],
                    mc.connections@[cj.0 as int].journeys@[cj.1 as int],
                    date,
                )
            },
            forall|c: int, j: int|
                (0 <= c < mc.connections@.len() && 0 <= j
                    < mc.connections@[c].journeys@.len() && journey_valid(
                    mc.connections@[c],
                    #[trigger] mc.connections@[c].journeys@[j],
                    date,
                )) ==> pairs@.contains((c as usize, j as usize)),
            forall|u: usize, v: usize| #[trigger] graph_edges(*g).contains_key((u, v))
                ==> is_travel_edge(*mc, date, stations@, u, v),
            forall|u: usize, v: usize| #[trigger] graph_edges(*g).contains_key((u, v))
                ==> graph_edges(*g)[(u, v)] as int == vert_time(stations@, v as int) as int
                - vert_time(stations@, u as int) as int,
            forall|n: usize| #[trigger] graph_nodes(*g).contains(n)
                ==> (n as int) < vert_count(stations@),
            forall|q2: int| 0 <= q2 < q ==> {
                let cj = #[trigger] pairs@[q2];
                forall|i2: int, u: usize, v: usize| hop_edge(
                    *mc,
                    date,
                    stations@,
                    cj.0 as int,
                    cj.1 as int,
                    i2,
                    u,
                    v,
                ) ==> graph_edges(*g).contains_key((u, v))
            },
        decreases pairs@.len() - q,
    {
        let cj = pairs[q];
        let c = cj.0;
        let j = cj.1;
        let jour = &mc.connections[c].journeys[j];
        let mut i: usize = 0;
        let n = jour.passings.len();
        let hops = if n == 0 { 0 } else { n - 1 };
        while i < hops
            invariant
                hops as int == (if jour.passings@.len() == 0 { 0int } else {
                    jour.passings@.len() - 1
                }),
                mc_wf(*mc),
                layout_wf(stations@),
                stations@.len() == mc.stops@.len(),
                vert_count(stations@) <= usize::MAX,
                forall|s: int, t: u32| 0 <= s < stations@.len()
                    ==> ((#[trigger] stations@[s].times@.contains(t)) <==> station_time(
                        *mc,
                        date,
                        s,
                        t,
                    )),
                q < pairs@.len(),
                pairs@[q as int] == (c, j),
                (c as int) < mc.connections@.len(),
                (j as int) < mc.connections@[c as int].journeys@.len(),
                jour == mc.connections@[c as int].journeys@[j as int],
                journey_valid(mc.connections@[c as int], *jour, date),
                i <= jour.passings@.len(),
                forall|u: usize, v: usize| #[trigger] graph_edges(*g).contains_key((u, v))
                    ==> is_travel_edge(*mc, date, stations@, u, v),
                forall|u: usize, v: usize| #[trigger] graph_edges(*g).contains_key((u, v))
                    ==> graph_edges(*g)[(u, v)] as int == vert_time(stations@, v as int) as int
                    - vert_time(stations@, u as int) as int,
                forall|n: usize| #[trigger] graph_nodes(*g).contains(n)
                    ==> (n as int) < vert_count(stations@),
                forall|q2: int| 0 <= q2 < q ==> {
                    let cj2 = #[trigger] pairs@[q2];
                    forall|i2: int, u: usize, v: usize| hop_edge(
                        *mc,
                        date,
                        stations@,
                        cj2.0 as int,
                        cj2.1 as int,
                        i2,
                        u,
                        v,
                    ) ==> graph_edges(*g).contains_key((u, v))
                },
                forall|i2: int, u: usize, v: usize|
                    0 <= i2 < i && hop_edge(
                        *mc,
                        date,
                        stations@,
                        c as int,
                        j as int,
                        i2,
                        u,
                        v,
                    ) ==> graph_edges(*g).contains_key((u, v)),
            decreases jour.passings@.len() - i,
        {
            let p1 = jour.passings[i];
            let p2 = jour.passings[i + 1];
            let mut hop_added = false;
            if let (Some(td), Some(ta)) = (p1.departure, p2.arrival) {
                if ta > td {
                    let s1 = p1.stop_point;
                    let s2 = p2.stop_point;
                    proof {
                        assert(passing_wf(p1, mc.stops@.len()));
                        assert(passing_wf(p2, mc.stops@.len()));
                        assert(station_time_at(*mc, date, c as int, j as int, i as int, s1 as int,
                            td));
                        assert(station_time_at(*mc, date, c as int, j as int, i as int + 1,
                            s2 as int, ta));
                        assert(stations@[s1 as int].times@.contains(td));
                        assert(stations@[s2 as int].times@.contains(ta));
                        lemma_block_in_range(stations@, s1 as int);
                        lemma_block_in_range(stations@, s2 as int);
                    }
                    let st1 = &stations[s1];
                    let st2 = &stations[s2];
                    let k1 = find_time(&st1.times, td);
                    let k2 = find_time(&st2.times, ta);
                    let u = st1.init + 2 + k1;
                    let v = st2.init + 2 + k2;
                    let w = ta as i64 - td as i64;
                    graph_add_edge(g, u, v, w);
                    hop_added = true;
                    proof {
                        assert(time_vert_of(stations@, s1 as int, k1 as int, u as int));
                        assert(time_vert_of(stations@, s2 as int, k2 as int, v as int));
                        lemma_vert_time(stations@, s1 as int, k1 as int, u as int);
                        lemma_vert_time(stations@, s2 as int, k2 as int, v as int);
                        assert(vert_for_time(stations@, s1 as int, td, u));
                        assert(vert_for_time(stations@, s2 as int, ta, v));
                        assert(travel_hop(*mc, date, c as int, j as int, i as int));
                        assert(hop_edge(*mc, date, stations@, c as int, j as int, i as int, u, v));
                        assert(is_travel_edge(*mc, date, stations@, u, v));
                        assert forall|u2: usize, v2: usize|
                            hop_edge(*mc, date, stations@, c as int, j as int, i as int, u2, v2)
                            implies graph_edges(*g).contains_key((u2, v2)) by {
                            lemma_vert_for_time_unique(stations@, s1 as int, td, u2, u);
                            lemma_vert_for_time_unique(stations@, s2 as int, ta, v2, v);
                        }
                        assert(owns(stations@, s1 as int, u as int));
                        assert(owns(stations@, s2 as int, v as int));
                    }
                }
            }
            proof {
                if !hop_added {
                    assert forall|u2: usize, v2: usize|
                        hop_edge(*mc, date, stations@, c as int, j as int, i as int, u2, v2)
                        implies graph_edges(*g).contains_key((u2, v2)) by {
                        assert(!travel_hop(*mc, date, c as int, j as int, i as int));
                    }
                }
            }
            i = i + 1;
        }
        proof {
            assert forall|i2: int, u: usize, v: usize|
                hop_edge(*mc, date, stations@, c as int, j as int, i2, u, v) implies graph_edges(
                *g,
            ).contains_key((u, v)) by {
                assert(travel_hop(*mc, date, c as int, j as int, i2));
                assert(0 <= i2 < jour.passings@.len() - 1);
            }
        }
        q = q + 1;
    }
    proof {
        assert forall|u: usize, v: usize| #[trigger] graph_edges(*g).contains_key((u, v))
            <==> is_travel_edge(*mc, date, stations@, u, v) by {
            if is_travel_edge(*mc, date, stations@, u, v) {
                let (c, j, i) = choose|c: int, j: int, i: int| hop_edge(
                    *mc,
                    date,
                    stations@,
                    c,
                    j,
                    i,
                    u,
                    v,
                );
                vstd::std_specs::vec::axiom_spec_len(&mc.connections);
                vstd::std_specs::vec::axiom_spec_len(&mc.connections[c].journeys);
                assert(pairs@.contains((c as usize, j as usize)));
                let q2 = choose|q2: int| 0 <= q2 < pairs@.len() && pairs@[q2] == (
                c as usize, j as usize);
                assert(hop_edge(
                    *mc,
                    date,
                    stations@,
                    pairs@[q2].0 as int,
                    pairs@[q2].1 as int,
                    i,
                    u,
                    v,
                ));
            }
        }
    }
}
/// One in-station edge contributed at time position `k` of station `s`:
/// the zero-weight Init fan-out edge to that time vertex, the zero-weight
/// fan-in edge from it to Final, or the forward waiting edge to the next
/// recorded time.
pub open spec fn station_edge_step(
    stations: Seq<Station>,
    s: int,
    k: int,
    u: usize,
    v: usize,
) -> bool {
    &&& 0 <= s < stations.len()
    &&& 0 <= k < stations[s].times@.len()
    &&& {
        ||| (u as int == stations[s].init && v as int == time_vert(stations, s, k))
        ||| (u as int == time_vert(stations, s, k) && v as int == stations[s].fin)
        ||| (k + 1 < stations[s].times@.len() && u as int == time_vert(stations, s, k) && v as int
            == time_vert(stations, s, k + 1))
    }
}

/// `(u, v)` is an in-station edge of some station.
pub open spec fn is_station_edge(stations: Seq<Station>, u: usize, v: usize) -> bool {
    exists|s: int, k: int| station_edge_step(stations, s, k, u, v)
}

/// The edge store during pass four: everything present is either from the
/// base map or an in-station edge, the base map survives, edges out of an
/// Init vertex and into a Final vertex weigh zero, and edges between two
/// time vertices weigh the time difference of their endpoints.
pub open spec fn edges_sound(
    stations: Seq<Station>,
    base: Map<(usize, usize), i64>,
    edges: Map<(usize, usize), i64>,
) -> bool {
    &&& forall|u: usize, v: usize| (#[trigger] edges.contains_key((u, v)))
        ==> (base.contains_key((u, v)) || is_station_edge(stations, u, v))
    &&& forall|u: usize, v: usize| #[trigger] base.contains_key((u, v))
        ==> edges.contains_key((u, v))
    &&& forall|u: usize, v: usize|
        (#[trigger] edges.contains_key((u, v)) && is_init_vert(stations, u as int)) ==> edges[(
            u,
            v,
        )] == 0
    &&& forall|u: usize, v: usize|
        (#[trigger] edges.contains_key((u, v)) && is_fin_vert(stations, v as int)) ==> edges[(
            u,
            v,
        )] == 0
    &&& forall|u: usize, v: usize|
        (#[trigger] edges.contains_key((u, v)) && is_time_vert(stations, u as int) && is_time_vert(
            stations,
            v as int,
        )) ==> edges[(u, v)] as int == vert_time(stations, v as int) as int - vert_time(
            stations,
            u as int,
        ) as int
}

/// Adds one in-station edge, keeping the pass-four soundness facts.
fn add_station_edge(
    g: &mut DiGraph,
    stations: &Vec<Station>,
    Ghost(base): Ghost<Map<(usize, usize), i64>>,
    a: usize,
    b: usize,
    w: i64,
)
    requires
        layout_wf(stations@),
        edges_sound(stations@, base, graph_edges(*old(g))),
        is_station_edge(stations@, a, b),
        is_init_vert(stations@, a as int) ==> w == 0,
        is_fin_vert(stations@, b as int) ==> w == 0,
        (is_time_vert(stations@, a as int) && is_time_vert(stations@, b as int)) ==> w as int
            == vert_time(stations@, b as int) as int - vert_time(stations@, a as int) as int,
        (a as int) < vert_count(stations@),
        (b as int) < vert_count(stations@),
        forall|n: usize| #[trigger] graph_nodes(*old(g)).contains(n)
            ==> (n as int) < vert_count(stations@),
    ensures
        graph_edges(*final(g)) == graph_edges(*old(g)).insert((a, b), w),
        edges_sound(stations@, base, graph_edges(*final(g))),
        forall|n: usize| #[trigger] graph_nodes(*final(g)).contains(n)
            ==> (n as int) < vert_count(stations@),
{
    graph_add_edge(g, a, b, w);
    proof {
        let pre = graph_edges(*old(g));
        let post = graph_edges(*g);
        assert forall|u: usize, v: usize| (#[trigger] post.contains_key((u, v))) implies (
        base.contains_key((u, v)) || is_station_edge(stations@, u, v)) by {
            if (u, v) != (a, b) {
                assert(pre.contains_key((u, v)));
            }
        }
        assert forall|u: usize, v: usize|
            (#[trigger] post.contains_key((u, v)) && is_init_vert(stations@, u as int)) implies
            post[(u, v)] == 0 by {
            if (u, v) != (a, b) {
                assert(pre.contains_key((u, v)));
            }
        }
        assert forall|u: usize, v: usize|
            (#[trigger] post.contains_key((u, v)) && is_fin_vert(stations@, v as int)) implies
            post[(u, v)] == 0 by {
            if (u, v) != (a, b) {
                assert(pre.contains_key((u, v)));
            }
        }
        assert forall|u: usize, v: usize|
            (#[trigger] post.contains_key((u, v)) && is_time_vert(stations@, u as int)
                && is_time_vert(stations@, v as int)) implies post[(u, v)] as int == vert_time(
            stations@,
            v as int,
        ) as int - vert_time(stations@, u as int) as int by {
            if (u, v) != (a, b) {
                assert(pre.contains_key((u, v)));
            }
        }
    }
}

/// Pass four of graph construction: per station, connect Init to every
/// time vertex and every time vertex to Final with weight zero, and chain
/// consecutive time vertices with forward waiting edges weighted by the
/// time delta. Earlier edges keep their weights unless an in-station edge
/// overwrites them.
pub(crate) fn add_station_edges(g: &mut DiGraph, stations: &Vec<Station>)
    requires
        layout_wf(stations@),
        vert_count(stations@) <= usize::MAX,
        forall|n: usize| #[trigger] graph_nodes(*old(g)).contains(n)
            ==> (n as int) < vert_count(stations@),
        forall|u: usize, v: usize| #[trigger] graph_edges(*old(g)).contains_key((u, v))
            ==> is_time_vert(stations@, u as int) && is_time_vert(stations@, v as int)
            && graph_edges(*old(g))[(u, v)] as int == vert_time(stations@, v as int) as int
            - vert_time(stations@, u as int) as int,
    ensures
        forall|u: usize, v: usize| (#[trigger] graph_edges(*final(g)).contains_key((u, v)))
            <==> (graph_edges(*old(g)).contains_key((u, v)) || is_station_edge(stations@, u, v)),
        edges_sound(stations@, graph_edges(*old(g)), graph_edges(*final(g))),
        forall|n: usize| #[trigger] graph_nodes(*final(g)).contains(n)
            ==> (n as int) < vert_count(stations@),
{
    let ghost base = graph_edges(*old(g));
    proof {
        assert forall|u: usize, v: usize|
            (#[trigger] graph_edges(*old(g)).contains_key((u, v)) && is_init_vert(
                stations@,
                u as int,
            )) implies graph_edges(*old(g))[(u, v)] == 0 by {
            lemma_vert_kinds(stations@, u as int);
        }
        assert forall|u: usize, v: usize|
            (#[trigger] graph_edges(*old(g)).contains_key((u, v)) && is_fin_vert(
                stations@,
                v as int,
            )) implies graph_edges(*old(g))[(u, v)] == 0 by {
            lemma_vert_kinds(stations@, v as int);
        }
        assert(edges_sound(stations@, base, graph_edges(*g)));
    }
    let mut s: usize = 0;
    while s < stations.len()
        invariant
            layout_wf(stations@),
            vert_count(stations@) <= usize::MAX,
            s <= stations@.len(),
            base == graph_edges(*old(g)),
            edges_sound(stations@, base, graph_edges(*g)),
            forall|s2: int, k2: int, u: usize, v: usize|
                ((s2 < s as int) && station_edge_step(stations@, s2, k2, u, v))
                ==> graph_edges(*g).contains_key((u, v)),
            forall|n: usize| #[trigger] graph_nodes(*g).contains(n)
                ==> (n as int) < vert_count(stations@),
        decreases stations@.len() - s,
    {
        let st = &stations[s];
        proof {
            lemma_block_in_range(stations@, s as int);
        }
        let mut k: usize = 0;
        while k < st.times.len()
            invariant
                layout_wf(stations@),
                vert_count(stations@) <= usize::MAX,
                s < stations@.len(),
                st == stations@[s as int],
                block_end(stations@[s as int]) <= vert_count(stations@),
                k <= st.times@.len(),
                base == graph_edges(*old(g)),
                edges_sound(stations@, base, graph_edges(*g)),
                forall|s2: int, k2: int, u: usize, v: usize|
                    ((s2 < s as int || (s2 == s as int && k2 < k as int)) && station_edge_step(
                        stations@,
                        s2,
                        k2,
                        u,
                        v,
                    )) ==> graph_edges(*g).contains_key((u, v)),
                forall|n: usize| #[trigger] graph_nodes(*g).contains(n)
                    ==> (n as int) < vert_count(stations@),
            decreases st.times@.len() - k,
        {
            let tv = st.init + 2 + k;
            proof {
                assert(time_vert_of(stations@, s as int, k as int, tv as int));
                lemma_vert_time(stations@, s as int, k as int, tv as int);
                lemma_vert_kinds(stations@, st.init as int);
                lemma_vert_kinds(stations@, tv as int);
                lemma_vert_kinds(stations@, st.fin as int);
                assert(is_init_vert(stations@, st.init as int)) by {
                    assert(st.init == stations@[s as int].init);
                }
                assert(is_fin_vert(stations@, st.fin as int)) by {
                    assert(st.fin == stations@[s as int].fin);
                }
                assert(station_edge_step(stations@, s as int, k as int, st.init, tv));
                assert(station_edge_step(stations@, s as int, k as int, tv, st.fin));
            }
            add_station_edge(g, stations, Ghost(base), st.init, tv, 0);
            add_station_edge(g, stations, Ghost(base), tv, st.fin, 0);
            if k + 1 < st.times.len() {
                let t0 = st.times[k];
                let t1 = st.times[k + 1];
                proof {
                    assert(t0 < t1);
                    assert(time_vert_of(stations@, s as int, k as int + 1, tv as int + 1));
                    lemma_vert_time(stations@, s as int, k as int + 1, tv as int + 1);
                    lemma_vert_kinds(stations@, tv as int + 1);
                    assert(station_edge_step(stations@, s as int, k as int, tv, (tv + 1) as usize));
                }
                let w = t1 as i64 - t0 as i64;
                add_station_edge(g, stations, Ghost(base), tv, tv + 1, w);
            }
            proof {
                assert forall|s2: int, k2: int, u: usize, v: usize|
                    ((s2 < s as int || (s2 == s as int && k2 < k as int + 1))
                        && station_edge_step(stations@, s2, k2, u, v)) implies graph_edges(
                    *g,
                ).contains_key((u, v)) by {
                    if s2 == s as int && k2 == k as int {
                        assert(stations@[s2].init == st.init);
                    }
                }
            }
            k = k + 1;
        }
        proof {
            assert forall|s2: int, k2: int, u: usize, v: usize|
                ((s2 < s as int + 1) && station_edge_step(stations@, s2, k2, u, v)) implies
                graph_edges(*g).contains_key((u, v)) by {
                if s2 == s as int {
                    assert(0 <= k2 < stations@[s2].times@.len());
                }
            }
        }
        s = s + 1;
    }
    proof {
        assert forall|u: usize, v: usize| (#[trigger] graph_edges(*g).contains_key((u, v)))
            <==> (graph_edges(*old(g)).contains_key((u, v)) || is_station_edge(
            stations@,
            u,
            v,
        )) by {
            if is_station_edge(stations@, u, v) {
                let (s2, k2) = choose|s2: int, k2: int| station_edge_step(stations@, s2, k2, u, v);
                assert(s2 < stations@.len() as int && station_edge_step(stations@, s2, k2, u, v));
            }
        }
    }
}

/// Every edge of the built graph is forward in time or free: it leaves an
/// Init vertex, enters a Final vertex, or joins two time vertices whose
/// recorded times strictly increase. In particular no travel or waiting
/// edge ever goes backward or sideways in time.
pub proof fn lemma_edge_shape(
    mc: MultiConnection,
    date: u32,
    stations: Seq<Station>,
    u: usize,
    v: usize,
)
    requires
        mc_wf(mc),
        stations.len() == mc.stops@.len(),
        layout_wf(stations),
        is_travel_edge(mc, date, stations, u, v) || is_station_edge(stations, u, v),
    ensures
        is_init_vert(stations, u as int) || is_fin_vert(stations, v as int) || (is_time_vert(
            stations,
            u as int,
        ) && is_time_vert(stations, v as int) && vert_time(stations, v as int) > vert_time(
            stations,
            u as int,
        ) && vert_time(stations, v as int) < SECONDS_PER_DAY),
{
    if is_init_vert(stations, u as int) {
    } else if is_fin_vert(stations, v as int) {
    } else if is_travel_edge(mc, date, stations, u, v) {
        let (c, j, i) = choose|c: int, j: int, i: int| hop_edge(mc, date, stations, c, j, i, u, v);
        let s1 = passing_at(mc, c, j, i).stop_point as int;
        let s2 = passing_at(mc, c, j, i + 1).stop_point as int;
        let td = passing_at(mc, c, j, i).departure.unwrap();
        let ta = passing_at(mc, c, j, i + 1).arrival.unwrap();
        assert(sub_wf(mc.connections@[c], mc.stops@.len()));
        assert(journey_wf(
            mc.connections@[c].journeys@[j],
            mc.connections@[c].day_types@.len(),
            mc.stops@.len(),
        ));
        assert(passing_wf(passing_at(mc, c, j, i), mc.stops@.len()));
        assert(passing_wf(passing_at(mc, c, j, i + 1), mc.stops@.len()));
        assert(vert_for_time(stations, s1, td, u));
        assert(vert_for_time(stations, s2, ta, v));
        let k1 = choose|k: int| 0 <= k < stations[s1].times@.len() && stations[s1].times@[k] == td
            && u as int == time_vert(stations, s1, k);
        let k2 = choose|k: int| 0 <= k < stations[s2].times@.len() && stations[s2].times@[k] == ta
            && v as int == time_vert(stations, s2, k);
        lemma_vert_time(stations, s1, k1, u as int);
        lemma_vert_time(stations, s2, k2, v as int);
    } else {
        let (s2, k2) = choose|s2: int, k2: int| station_edge_step(stations, s2, k2, u, v);
        assert(u as int == time_vert(stations, s2, k2) && k2 + 1 < stations[s2].times@.len()
            && v as int == time_vert(stations, s2, k2 + 1)) by {
            if u as int == stations[s2].init {
                assert(is_init_vert(stations, u as int));
            }
            if v as int == stations[s2].fin {
                assert(is_fin_vert(stations, v as int));
            }
        }
        lemma_vert_time(stations, s2, k2, u as int);
        lemma_vert_time(stations, s2, k2 + 1, v as int);
    }
}

/// The ceiling on stations a feed may hold, so that every shortest-path
/// cost fits in a signed 64-bit weight.
pub const MAX_STATIONS: usize = 1000000000;

/// A set of vertex ids all below a bound is finite and no larger than
/// the bound.
proof fn lemma_nodes_card(nodes: Set<usize>, vc: int)
    requires
        0 <= vc <= usize::MAX,
        forall|n: usize| #[trigger] nodes.contains(n) ==> (n as int) < vc,
    ensures
        nodes.finite(),
        nodes.len() <= vc,
{
    broadcast use vstd::set_lib::range_set_properties;

    let range = Set::<usize>::range(0, vc as usize);
    assert(nodes.subset_of(range)) by {
        assert forall|n: usize| nodes.contains(n) implies range.contains(n) by {}
    }
    vstd::set_lib::lemma_set_subset_finite(range, nodes);
    vstd::set_lib::lemma_len_subset(nodes, range);
}

/// The time-expanded connection graph for one date: the weighted edge
/// store, the per-station vertex blocks in registry order, and the stop
/// names they belong to.
pub struct ConnectionGraph {
    pub graph: DiGraph,
    pub stations: Vec<Station>,
    pub stops: Vec<String>,
}

impl ConnectionGraph {
    /// Structural invariant: the vertex id layout holds, one station per
    /// stop name, names distinct, and the edge store touches only
    /// laid-out vertices with non-negative sub-day weights small enough
    /// that no query cost can overflow.
    pub open spec fn wf(&self) -> bool {
        &&& layout_wf(self.stations@)
        &&& self.stations@.len() == self.stops@.len()
        &&& stops_distinct(self.stops@)
        &&& vert_count(self.stations@) <= usize::MAX
        &&& vert_count(self.stations@) * (SECONDS_PER_DAY as int) <= i64::MAX
        &&& graph_nodes(self.graph).finite()
        &&& graph_nodes(self.graph).len() <= vert_count(self.stations@)
        &&& forall|n: usize| #[trigger] graph_nodes(self.graph).contains(n) ==> (n as int)
            < vert_count(self.stations@)
        &&& forall|e: (usize, usize)| #[trigger] graph_edges(self.graph).contains_key(e) ==> 0
            <= graph_edges(self.graph)[e] < SECONDS_PER_DAY
    }

    /// What the graph means for feed `mc` on the build date: each
    /// station's recorded times are exactly the times at which valid
    /// journeys pass it; the edges are exactly the travel edges plus the
    /// in-station edges; edges out of Init and into Final weigh zero and
    /// edges between time vertices weigh the time difference of their
    /// endpoints.
    pub open spec fn represents(&self, mc: MultiConnection, date: u32) -> bool {
        &&& forall|s: int, t: u32| 0 <= s < self.stations@.len()
            ==> ((#[trigger] self.stations@[s].times@.contains(t)) <==> station_time(
                mc,
                date,
                s,
                t,
            ))
        &&& forall|u: usize, v: usize| (#[trigger] graph_edges(self.graph).contains_key((u, v)))
            <==> (is_travel_edge(mc, date, self.stations@, u, v) || is_station_edge(
                self.stations@,
                u,
                v,
            ))
        &&& forall|u: usize, v: usize|
            (#[trigger] graph_edges(self.graph).contains_key((u, v)) && is_init_vert(
                self.stations@,
                u as int,
            )) ==> graph_edges(self.graph)[(u, v)] == 0
        &&& forall|u: usize, v: usize|
            (#[trigger] graph_edges(self.graph).contains_key((u, v)) && is_fin_vert(
                self.stations@,
                v as int,
            )) ==> graph_edges(self.graph)[(u, v)] == 0
        &&& forall|u: usize, v: usize|
            (#[trigger] graph_edges(self.graph).contains_key((u, v)) && is_time_vert(
                self.stations@,
                u as int,
            ) && is_time_vert(self.stations@, v as int)) ==> graph_edges(self.graph)[(u, v)] as int
            == vert_time(self.stations@, v as int) as int - vert_time(
                self.stations@,
                u as int,
            ) as int
    }

    /// Builds the time-expanded connection graph for the given date:
    /// collects each station's distinct times from the journeys valid on
    /// the date, numbers the vertices per the layout invariant, then adds
    /// the travel edges and the in-station edges.
    #[verifier::rlimit(60)]
    pub fn new(connections: &MultiConnection, date: u32) -> (r: ConnectionGraph)
        requires
            mc_wf(*connections),
            stops_distinct(connections.stops@),
            connections.stops@.len() * (BLOCK_MAX as int) <= usize::MAX,
            connections.stops@.len() <= MAX_STATIONS,
        ensures
            r.wf(),
            r.represents(*connections, date),
            r.stops@ == connections.stops@,
            r.stations@.len() == connections.stops@.len(),
    {
        let times = collect_station_times(connections, date);
        proof {
            assert forall|s: int, k: int| 0 <= s < times@.len() && 0 <= k < times@[s]@.len()
                implies (#[trigger] times@[s]@[k]) < SECONDS_PER_DAY by {
                let t = times@[s]@[k];
                assert(times@[s]@.contains(t));
                assert(station_time(*connections, date, s, t));
                let (c, j, i) = choose|c: int, j: int, i: int| station_time_at(
                    *connections,
                    date,
                    c,
                    j,
                    i,
                    s,
                    t,
                );
                assert(sub_wf(connections.connections@[c], connections.stops@.len()));
                assert(journey_wf(
                    connections.connections@[c].journeys@[j],
                    connections.connections@[c].day_types@.len(),
                    connections.stops@.len(),
                ));
                assert(passing_wf(
                    connections.connections@[c].journeys@[j].passings@[i],
                    connections.stops@.len(),
                ));
            }
        }
        let stations = number_stations(&times);
        let n = stations.len();
        let vc: usize = if n == 0 {
            0
        } else {
            proof {
                lemma_block_in_range(stations@, n as int - 1);
            }
            let lst = &stations[n - 1];
            lst.init + 2 + lst.times.len()
        };
        proof {
            assert(vc as int == vert_count(stations@));
            assert(vert_count(stations@) * (SECONDS_PER_DAY as int) <= i64::MAX) by {
                assert(vert_count(stations@) <= (MAX_STATIONS as int) * (BLOCK_MAX as int));
            }
        }
        let edge_capacity = if vc <= usize::MAX / 3 {
            3 * vc
        } else {
            vc
        };
        let mut g = graph_new(vc, edge_capacity);
        add_travel_edges(&mut g, connections, date, &stations);
        proof {
            assert forall|u: usize, v: usize| #[trigger] graph_edges(g).contains_key((u, v))
                implies is_time_vert(stations@, u as int) && is_time_vert(stations@, v as int) by {
                let (c, j, i) = choose|c: int, j: int, i: int| hop_edge(
                    *connections,
                    date,
                    stations@,
                    c,
                    j,
                    i,
                    u,
                    v,
                );
                let s1 = passing_at(*connections, c, j, i).stop_point as int;
                let s2 = passing_at(*connections, c, j, i + 1).stop_point as int;
                let td = passing_at(*connections, c, j, i).departure.unwrap();
                let ta = passing_at(*connections, c, j, i + 1).arrival.unwrap();
                let k1 = choose|k: int| 0 <= k < stations@[s1].times@.len()
                    && stations@[s1].times@[k] == td && u as int == time_vert(stations@, s1, k);
                let k2 = choose|k: int| 0 <= k < stations@[s2].times@.len()
                    && stations@[s2].times@[k] == ta && v as int == time_vert(stations@, s2, k);
                lemma_vert_time(stations@, s1, k1, u as int);
                lemma_vert_time(stations@, s2, k2, v as int);
            }
        }
        add_station_edges(&mut g, &stations);
        let mut stops: Vec<String> = Vec::new();
        let mut si: usize = 0;
        while si < connections.stops.len()
            invariant
                si <= connections.stops@.len(),
                stops@ == connections.stops@.take(si as int),
            decreases connections.stops@.len() - si,
        {
            stops.push(connections.stops[si].clone());
            proof {
                assert(stops@ =~= connections.stops@.take(si as int + 1));
            }
            si = si + 1;
        }
        proof {
            assert(stops@ =~= connections.stops@);
        }
        let r = ConnectionGraph { graph: g, stations, stops };
        proof {
            assert forall|s: int, t: u32| 0 <= s < r.stations@.len() implies ((
            #[trigger] r.stations@[s].times@.contains(t)) <==> station_time(
                *connections,
                date,
                s,
                t,
            )) by {
                assert(r.stations@[s].times@ == times@[s]@);
            }
            assert forall|e: (usize, usize)| #[trigger] graph_edges(r.graph).contains_key(e)
                implies 0 <= graph_edges(r.graph)[e] < SECONDS_PER_DAY by {
                let u = e.0;
                let v = e.1;
                assert(graph_edges(r.graph).contains_key((u, v)));
                lemma_edge_shape(*connections, date, r.stations@, u, v);
            }
            lemma_nodes_card(graph_nodes(r.graph), vert_count(r.stations@));
        }
        r
    }
}

/// The classification of vertex id `id` inside station `s`'s block.
pub open spec fn stop_kind_of(stations: Seq<Station>, s: int, id: int) -> StopKind {
    if id == stations[s].init {
        StopKind::Initial
    } else if id == stations[s].fin {
        StopKind::Terminal
    } else {
        StopKind::At(stations[s].times@[id - stations[s].init - 2])
    }
}

/// What a vertex id stands for: a station's Init anchor, its Final
/// anchor, or a pass at a specific time of day.
#[derive(Debug, Clone, Copy, PartialEq, Eq, Structural)]
pub enum StopKind {
    Initial,
    Terminal,
    At(u32),
}

/// A resolved vertex id: the owning station's name and the vertex's role.
#[derive(Debug)]
pub struct Stop {
    pub name: String,
    pub detail: StopKind,
}

/// The station whose block holds `id`: the greatest block start at or
/// below `id`, or nothing when `id` lies past the handed-out range.
#[verifier::rlimit(60)]
fn find_block(stations: &Vec<Station>, id: usize) -> (r: Option<usize>)
    requires
        layout_wf(stations@),
        vert_count(stations@) <= usize::MAX,
    ensures
        match r {
            Some(s) => owns(stations@, s as int, id as int),
            None => (id as int) >= vert_count(stations@),
        },
{
    let mut s: usize = 0;
    while s < stations.len()
        invariant
            layout_wf(stations@),
            vert_count(stations@) <= usize::MAX,
            s <= stations@.len(),
            forall|s2: int| 0 <= s2 < s ==> block_end(#[trigger] stations@[s2]) <= id as int,
        decreases stations@.len() - s,
    {
        let st = &stations[s];
        proof {
            lemma_block_in_range(stations@, s as int);
        }
        if id < st.init + 2 + st.times.len() {
            proof {
                assert(id as int >= st.init as int) by {
                    if s > 0 {
                        assert(block_end(stations@[s as int - 1]) <= id as int);
                    }
                }
            }
            return Some(s);
        }
        s = s + 1;
    }
    proof {
        if stations@.len() > 0 {
            assert(block_end(stations@[stations@.len() - 1]) <= id as int);
        }
    }
    None
}

impl ConnectionGraph {
    /// The total number of vertex ids the builder handed out.
    pub fn vertex_count(&self) -> (r: usize)
        requires
            self.wf(),
        ensures
            r as int == vert_count(self.stations@),
    {
        let n = self.stations.len();
        if n == 0 {
            0
        } else {
            proof {
                lemma_block_in_range(self.stations@, n as int - 1);
            }
            let lst = &self.stations[n - 1];
            lst.init + 2 + lst.times.len()
        }
    }

    /// The station name owning `id`, but only when `id` is exactly that
    /// station's Final vertex: the reverse lookup used to read earliest
    /// arrivals out of a shortest-path result.
    pub fn terminal_by_id(&self, id: &usize) -> (r: Option<String>)
        requires
            self.wf(),
        ensures
            match r {
                Some(name) => exists|s: int|
                    owns(self.stations@, s, *id as int) && (#[trigger] self.stations@[s]).fin
                        == *id && name@ == self.stops@[s]@,
                None => forall|s: int| 0 <= s < self.stations@.len()
                    ==> (#[trigger] self.stations@[s]).fin != *id,
            },
    {
        let vid = *id;
        match find_block(&self.stations, vid) {
            Some(s) => {
                if self.stations[s].fin == vid {
                    proof {
                        assert(owns(self.stations@, s as int, vid as int)
                            && self.stations@[s as int].fin == vid);
                    }
                    Some(self.stops[s].clone())
                } else {
                    proof {
                        assert forall|s2: int| 0 <= s2 < self.stations@.len() implies (
                        #[trigger] self.stations@[s2]).fin != vid by {
                            if self.stations@[s2].fin == vid {
                                assert(owns(self.stations@, s2, vid as int));
                                lemma_owner_unique(self.stations@, s2, s as int, vid as int);
                            }
                        }
                    }
                    None
                }
            },
            None => {
                proof {
                    assert forall|s2: int| 0 <= s2 < self.stations@.len() implies (
                    #[trigger] self.stations@[s2]).fin != vid by {
                        lemma_block_in_range(self.stations@, s2);
                    }
                }
                None
            },
        }
    }

    /// Resolves a vertex id to its owning station and role, searching the
    /// block that contains the id (the greatest block start at or below
    /// it, as `terminal_by_id` does): every id the builder handed out
    /// resolves, ids past the range do not.
    pub fn stop_by_id(&self, id: &usize) -> (r: Option<Stop>)
        requires
            self.wf(),
        ensures
            match r {
                Some(stop) => exists|s: int|
                    #![trigger self.stations@[s]]
                    owns(self.stations@, s, *id as int) && stop.name@ == self.stops@[s]@
                        && stop.detail == stop_kind_of(self.stations@, s, *id as int),
                None => (*id as int) >= vert_count(self.stations@),
            },
    {
        let vid = *id;
        match find_block(&self.stations, vid) {
            Some(s) => {
                let st = &self.stations[s];
                let detail = if vid == st.init {
                    StopKind::Initial
                } else if vid == st.fin {
                    StopKind::Terminal
                } else {
                    let k = vid - st.init - 2;
                    StopKind::At(st.times[k])
                };
                Some(Stop { name: self.stops[s].clone(), detail })
            },
            None => None,
        }
    }

    /// The reverse lookup in the opposite search direction: the candidate
    /// station is the one with the least block start at or equal to `id`
    /// and upward, so only a block start itself, an Init vertex, ever
    /// matches; every other id resolves to nothing.
    #[verifier::rlimit(100)]
    #[verifier::spinoff_prover]
    pub fn stop_by_id_ceiling(&self, id: &usize) -> (r: Option<Stop>)
        requires
            self.wf(),
        ensures
            match r {
                Some(stop) => exists|s: int|
                    0 <= s < self.stations@.len() && (#[trigger] self.stations@[s]).init == *id
                        && stop.name@ == self.stops@[s]@ && stop.detail == StopKind::Initial,
                None => forall|s: int| 0 <= s < self.stations@.len()
                    ==> (#[trigger] self.stations@[s]).init != *id,
            },
    {
        let vid = *id;
        let mut s: usize = 0;
        let n = self.stations.len();
        while s < n
            invariant
                vid == *id,
                n == self.stations@.len(),
                self.stations@.len() == self.stops@.len(),
                layout_wf(self.stations@),
                s <= n,
                forall|s2: int| 0 <= s2 < s ==> (#[trigger] self.stations@[s2]).init < vid,
            decreases n - s,
        {
            let st = &self.stations[s];
            if st.init >= vid {
                if st.init == vid {
                    let found = Stop { name: self.stops[s].clone(), detail: StopKind::Initial };
                    proof {
                        assert((s as int) < self.stations@.len()
                            && self.stations@[s as int].init == vid && found.name@
                            == self.stops@[s as int]@);
                    }
                    return Some(found);
                }
                proof {
                    assert forall|s2: int| 0 <= s2 < self.stations@.len() implies (
                    #[trigger] self.stations@[s2]).init != vid by {
                        if s2 >= s as int {
                            lemma_layout_monotonic(self.stations@, s as int, s2);
                        }
                    }
                }
                return None;
            }
            s = s + 1;
        }
        None
    }

    /// The Init and Final vertex ids of the station with the given name,
    /// if the name is registered.
    pub fn resolve_station(&self, name: &str) -> (r: Option<(usize, usize)>)
        requires
            self.wf(),
        ensures
            match r {
                Some(iv) => exists|s: int|
                    #![trigger self.stations@[s]]
                    0 <= s < self.stops@.len() && self.stops@[s]@ == name@ && iv.0
                        == self.stations@[s].init && iv.1 == self.stations@[s].fin,
                None => forall|s: int| 0 <= s < self.stops@.len()
                    ==> (#[trigger] self.stops@[s])@ != name@,
            },
    {
        let owned = name.to_owned();
        let mut s: usize = 0;
        while s < self.stops.len()
            invariant
                self.wf(),
                owned@ == name@,
                s <= self.stops@.len(),
                forall|s2: int| 0 <= s2 < s ==> (#[trigger] self.stops@[s2])@ != name@,
            decreases self.stops@.len() - s,
        {
            if self.stops[s] == owned {
                let st = &self.stations[s];
                return Some((st.init, st.fin));
            }
            s = s + 1;
        }
        None
    }

    /// The stored weight of the directed edge from `a` to `b`, if any.
    pub fn edge_weight(&self, a: usize, b: usize) -> (r: Option<i64>)
        ensures
            r == (if graph_edges(self.graph).contains_key((a, b)) {
                Some(graph_edges(self.graph)[(a, b)])
            } else {
                None::<i64>
            }),
    {
        crate::digraph::graph_edge_weight(&self.graph, a, b)
    }

    /// The outgoing edges of vertex `a`, each exactly once as a
    /// `(target, weight)` pair, in unspecified order.
    pub fn edges_from(&self, a: usize) -> (r: Vec<(usize, i64)>)
        ensures
            forall|q1: int, q2: int| 0 <= q1 < q2 < r@.len()
                ==> (#[trigger] r@[q1]).0 != (#[trigger] r@[q2]).0,
            forall|q: int| 0 <= q < r@.len() ==> {
                let tw = #[trigger] r@[q];
                graph_edges(self.graph).contains_key((a, tw.0)) && graph_edges(self.graph)[(
                    a,
                    tw.0,
                )] == tw.1
            },
            forall|b: usize| graph_edges(self.graph).contains_key((a, b))
                ==> exists|q: int| 0 <= q < r@.len() && (#[trigger] r@[q]).0 == b,
    {
        crate::digraph::graph_edges_from(&self.graph, a)
    }

    /// Least travel cost from `source` to every reachable vertex, as
    /// `(vertex, seconds)` pairs, each vertex once, in unspecified order:
    /// unreachable vertices are absent.
    pub fn shortest_paths(&self, source: usize) -> (r: Vec<(usize, i64)>)
        requires
            self.wf(),
        ensures
            forall|q1: int, q2: int| 0 <= q1 < q2 < r@.len()
                ==> (#[trigger] r@[q1]).0 != (#[trigger] r@[q2]).0,
            forall|q: int| 0 <= q < r@.len() ==> is_shortest_dist(
                graph_edges(self.graph),
                source,
                (#[trigger] r@[q]).0,
                r@[q].1,
            ),
            forall|v: usize| reachable(graph_edges(self.graph), source, v)
                ==> exists|q: int| 0 <= q < r@.len() && (#[trigger] r@[q]).0 == v,
    {
        proof {
            assert(graph_nodes(self.graph).len() * (SECONDS_PER_DAY as int) <= i64::MAX) by {
                assert(graph_nodes(self.graph).len() <= vert_count(self.stations@));
                assert(vert_count(self.stations@) * (SECONDS_PER_DAY as int) <= i64::MAX);
            }
        }
        crate::digraph::graph_dijkstra(&self.graph, source)
    }

    /// Least travel cost and an optimal walk from `source` to `target`,
    /// or nothing when `target` cannot be reached.
    pub fn shortest_path_to(&self, source: usize, target: usize) -> (r: Option<(i64, Vec<usize>)>)
        requires
            self.wf(),
        ensures
            match r {
                Some(cp) => connects(graph_edges(self.graph), cp.1@, source, target) && path_cost(
                    graph_edges(self.graph),
                    cp.1@,
                ) == cp.0 && is_shortest_dist(graph_edges(self.graph), source, target, cp.0),
                None => !reachable(graph_edges(self.graph), source, target),
            },
    {
        proof {
            assert(graph_nodes(self.graph).len() * (SECONDS_PER_DAY as int) <= i64::MAX) by {
                assert(graph_nodes(self.graph).len() <= vert_count(self.stations@));
                assert(vert_count(self.stations@) * (SECONDS_PER_DAY as int) <= i64::MAX);
            }
        }
        crate::digraph::graph_astar_zero(&self.graph, source, target)
    }
}

/// Vertex id contiguity: within a station's block the Final vertex id
/// follows Init, every time vertex id lies strictly between the Final id
/// and the next station's Init.
pub proof fn lemma_vertex_id_contiguity(stations: Seq<Station>, s: int)
    requires
        layout_wf(stations),
        0 <= s < stations.len(),
    ensures
        stations[s].fin == stations[s].init + 1,
        forall|k: int| 0 <= k < stations[s].times@.len()
            ==> time_vert(stations, s, k) > stations[s].fin,
        forall|k: int|
            0 <= k < stations[s].times@.len() && s + 1 < stations.len() ==> time_vert(
                stations,
                s,
                k,
            ) < stations[s + 1].init,
{
}

/// Round-trip lookup: every vertex id the builder produced is owned by
/// exactly the station that produced it, and classifies back to the role
/// and time of day it was produced for.
pub proof fn lemma_lookup_round_trip(stations: Seq<Station>, s: int)
    requires
        layout_wf(stations),
        0 <= s < stations.len(),
    ensures
        owns(stations, s, stations[s].init as int),
        owns(stations, s, stations[s].fin as int),
        forall|s2: int| owns(stations, s2, stations[s].init as int) ==> s2 == s,
        forall|s2: int| owns(stations, s2, stations[s].fin as int) ==> s2 == s,
        stop_kind_of(stations, s, stations[s].init as int) == StopKind::Initial,
        stop_kind_of(stations, s, stations[s].fin as int) == StopKind::Terminal,
        forall|k: int| 0 <= k < stations[s].times@.len() ==> owns(
            stations,
            s,
            #[trigger] time_vert(stations, s, k),
        ),
        forall|k: int, s2: int|
            0 <= k < stations[s].times@.len() && #[trigger] owns(
                stations,
                s2,
                #[trigger] time_vert(stations, s, k),
            ) ==> s2 == s,
        forall|k: int| 0 <= k < stations[s].times@.len() ==> stop_kind_of(
            stations,
            s,
            #[trigger] time_vert(stations, s, k),
        ) == StopKind::At(stations[s].times@[k]),
{
    assert forall|s2: int| owns(stations, s2, stations[s].init as int) implies s2 == s by {
        lemma_owner_unique(stations, s2, s, stations[s].init as int);
    }
    assert forall|s2: int| owns(stations, s2, stations[s].fin as int) implies s2 == s by {
        lemma_owner_unique(stations, s2, s, stations[s].fin as int);
    }
    assert forall|k: int, s2: int|
        0 <= k < stations[s].times@.len() && #[trigger] owns(
            stations,
            s2,
            #[trigger] time_vert(stations, s, k),
        ) implies s2 == s by {
        assert(owns(stations, s, time_vert(stations, s, k)));
        lemma_owner_unique(stations, s2, s, time_vert(stations, s, k));
    }
}

/// Fan-out and fan-in presence: in the built graph, a station's Init
/// vertex reaches every one of its time vertices with weight zero, every
/// time vertex reaches its Final vertex with weight zero, and consecutive
/// time vertices are chained by waiting edges with strictly positive,
/// time-ordered deltas.
/// One time position's fan edges are present with their weights.
proof fn lemma_fan_presence_at(cg: &ConnectionGraph, mc: MultiConnection, date: u32, s: int, k: int)
    requires
        cg.wf(),
        cg.represents(mc, date),
        0 <= s < cg.stations@.len(),
        0 <= k < cg.stations@[s].times@.len(),
    ensures
        ({
            let tv = time_vert(cg.stations@, s, k) as usize;
            &&& graph_edges(cg.graph).contains_key((cg.stations@[s].init, tv))
            &&& graph_edges(cg.graph)[(cg.stations@[s].init, tv)] == 0
            &&& graph_edges(cg.graph).contains_key((tv, cg.stations@[s].fin))
            &&& graph_edges(cg.graph)[(tv, cg.stations@[s].fin)] == 0
        }),
        k < cg.stations@[s].times@.len() - 1 ==> ({
            let tv0 = time_vert(cg.stations@, s, k) as usize;
            let tv1 = time_vert(cg.stations@, s, k + 1) as usize;
            &&& graph_edges(cg.graph).contains_key((tv0, tv1))
            &&& graph_edges(cg.graph)[(tv0, tv1)] as int == cg.stations@[s].times@[k + 1]
                - cg.stations@[s].times@[k]
            &&& graph_edges(cg.graph)[(tv0, tv1)] > 0
        }),
{
    let stations = cg.stations@;
    lemma_block_in_range(stations, s);
    assert(0 <= time_vert(stations, s, k) < vert_count(stations));
    let tv = time_vert(stations, s, k) as usize;
    assert(station_edge_step(stations, s, k, stations[s].init, tv));
    assert(is_station_edge(stations, stations[s].init, tv));
    assert(station_edge_step(stations, s, k, tv, stations[s].fin));
    assert(is_station_edge(stations, tv, stations[s].fin));
    assert(is_init_vert(stations, stations[s].init as int));
    assert(is_fin_vert(stations, stations[s].fin as int));
    assert(graph_edges(cg.graph).contains_key((stations[s].init, tv)));
    assert(graph_edges(cg.graph).contains_key((tv, stations[s].fin)));
    if k < stations[s].times@.len() - 1 {
        assert(0 <= time_vert(stations, s, k + 1) < vert_count(stations));
        let tv1 = time_vert(stations, s, k + 1) as usize;
        assert(station_edge_step(stations, s, k, tv, tv1));
        assert(is_station_edge(stations, tv, tv1));
        assert(graph_edges(cg.graph).contains_key((tv, tv1)));
        lemma_vert_time(stations, s, k, tv as int);
        lemma_vert_time(stations, s, k + 1, tv1 as int);
        assert(stations[s].times@[k] < stations[s].times@[k + 1]);
    }
}

/// Fan-out and fan-in presence: in the built graph, a station's Init
/// vertex reaches every one of its time vertices with weight zero, every
/// time vertex reaches its Final vertex with weight zero, and consecutive
/// time vertices are chained by waiting edges with strictly positive,
/// time-ordered deltas.
pub proof fn lemma_station_fan_edges(cg: &ConnectionGraph, mc: MultiConnection, date: u32, s: int)
    requires
        cg.wf(),
        cg.represents(mc, date),
        0 <= s < cg.stations@.len(),
    ensures
        forall|k: int| #![trigger time_vert(cg.stations@, s, k)] 0 <= k < cg.stations@[s].times@.len()
            ==> {
            let tv = time_vert(cg.stations@, s, k) as usize;
            &&& graph_edges(cg.graph).contains_key((cg.stations@[s].init, tv))
            &&& graph_edges(cg.graph)[(cg.stations@[s].init, tv)] == 0
            &&& graph_edges(cg.graph).contains_key((tv, cg.stations@[s].fin))
            &&& graph_edges(cg.graph)[(tv, cg.stations@[s].fin)] == 0
        },
        forall|k: int| #![trigger time_vert(cg.stations@, s, k)] 0 <= k < cg.stations@[s].times@.len()
            - 1 ==> {
            let tv0 = time_vert(cg.stations@, s, k) as usize;
            let tv1 = time_vert(cg.stations@, s, k + 1) as usize;
            &&& graph_edges(cg.graph).contains_key((tv0, tv1))
            &&& graph_edges(cg.graph)[(tv0, tv1)] as int == cg.stations@[s].times@[k + 1]
                - cg.stations@[s].times@[k]
            &&& graph_edges(cg.graph)[(tv0, tv1)] > 0
        },
{
    assert forall|k: int| #![trigger time_vert(cg.stations@, s, k)] 0 <= k
        < cg.stations@[s].times@.len() implies {
        let tv = time_vert(cg.stations@, s, k) as usize;
        &&& graph_edges(cg.graph).contains_key((cg.stations@[s].init, tv))
        &&& graph_edges(cg.graph)[(cg.stations@[s].init, tv)] == 0
        &&& graph_edges(cg.graph).contains_key((tv, cg.stations@[s].fin))
        &&& graph_edges(cg.graph)[(tv, cg.stations@[s].fin)] == 0
    } by {
        lemma_fan_presence_at(cg, mc, date, s, k);
    }
    assert forall|k: int| #![trigger time_vert(cg.stations@, s, k)] 0 <= k
        < cg.stations@[s].times@.len() - 1 implies {
        let tv0 = time_vert(cg.stations@, s, k) as usize;
        let tv1 = time_vert(cg.stations@, s, k + 1) as usize;
        &&& graph_edges(cg.graph).contains_key((tv0, tv1))
        &&& graph_edges(cg.graph)[(tv0, tv1)] as int == cg.stations@[s].times@[k + 1]
            - cg.stations@[s].times@[k]
        &&& graph_edges(cg.graph)[(tv0, tv1)] > 0
    } by {
        lemma_fan_presence_at(cg, mc, date, s, k);
    }
}

/// A vertex of a known time position is a time vertex.
proof fn lemma_is_time_vert(stations: Seq<Station>, s: int, k: int, u: int)
    requires
        time_vert_of(stations, s, k, u),
    ensures
        is_time_vert(stations, u),
{
    let sk = (s, k);
    assert(time_vert_of(stations, sk.0, sk.1, u));
}

/// A travel edge joins two time vertices.
proof fn lemma_travel_edge_time_verts(
    mc: MultiConnection,
    date: u32,
    stations: Seq<Station>,
    u: usize,
    v: usize,
)
    requires
        mc_wf(mc),
        stations.len() == mc.stops@.len(),
        layout_wf(stations),
        is_travel_edge(mc, date, stations, u, v),
    ensures
        is_time_vert(stations, u as int),
        is_time_vert(stations, v as int),
{
    let (c, j, i) = choose|c: int, j: int, i: int| hop_edge(mc, date, stations, c, j, i, u, v);
    let s1 = passing_at(mc, c, j, i).stop_point as int;
    let s2 = passing_at(mc, c, j, i + 1).stop_point as int;
    let td = passing_at(mc, c, j, i).departure.unwrap();
    let ta = passing_at(mc, c, j, i + 1).arrival.unwrap();
    assert(sub_wf(mc.connections@[c], mc.stops@.len()));
    assert(journey_wf(
        mc.connections@[c].journeys@[j],
        mc.connections@[c].day_types@.len(),
        mc.stops@.len(),
    ));
    assert(passing_wf(passing_at(mc, c, j, i), mc.stops@.len()));
    assert(passing_wf(passing_at(mc, c, j, i + 1), mc.stops@.len()));
    assert(vert_for_time(stations, s1, td, u));
    assert(vert_for_time(stations, s2, ta, v));
    let k1 = choose|k: int| 0 <= k < stations[s1].times@.len() && stations[s1].times@[k] == td
        && u as int == time_vert(stations, s1, k);
    let k2 = choose|k: int| 0 <= k < stations[s2].times@.len() && stations[s2].times@[k] == ta
        && v as int == time_vert(stations, s2, k);
    lemma_is_time_vert(stations, s1, k1, u as int);
    lemma_is_time_vert(stations, s2, k2, v as int);
}

/// Fan-out and fan-in exactness: in the built graph the only edges out of
/// a station's Init vertex go to its own time vertices, and the only
/// edges into its Final vertex come from its own time vertices, so a
/// station with `n` recorded times has exactly `n` of each.
#[verifier::rlimit(60)]
pub proof fn lemma_station_fan_exact(cg: &ConnectionGraph, mc: MultiConnection, date: u32, s: int)
    requires
        cg.wf(),
        cg.represents(mc, date),
        mc_wf(mc),
        cg.stations@.len() == mc.stops@.len(),
        0 <= s < cg.stations@.len(),
    ensures
        forall|v: usize| #[trigger] graph_edges(cg.graph).contains_key((cg.stations@[s].init, v))
            ==> exists|k: int| 0 <= k < cg.stations@[s].times@.len() && v as int == time_vert(
                cg.stations@,
                s,
                k,
            ),
        forall|u: usize| #[trigger] graph_edges(cg.graph).contains_key((u, cg.stations@[s].fin))
            ==> exists|k: int| 0 <= k < cg.stations@[s].times@.len() && u as int == time_vert(
                cg.stations@,
                s,
                k,
            ),
{
    let stations = cg.stations@;
    let edges = graph_edges(cg.graph);
    assert forall|v: usize| #[trigger] edges.contains_key((stations[s].init, v)) implies exists|
        k: int,
    | 0 <= k < stations[s].times@.len() && v as int == time_vert(stations, s, k) by {
        let u = stations[s].init;
        assert(is_init_vert(stations, u as int));
        lemma_vert_kinds(stations, u as int);
        assert(is_station_edge(stations, u, v)) by {
            if is_travel_edge(mc, date, stations, u, v) {
                lemma_travel_edge_time_verts(mc, date, stations, u, v);
            }
        }
        let (s2, k2) = choose|s2: int, k2: int| station_edge_step(stations, s2, k2, u, v);
        assert(owns(stations, s, u as int));
        if u as int == stations[s2].init {
            assert(owns(stations, s2, u as int));
            lemma_owner_unique(stations, s2, s, u as int);
            assert(v as int == time_vert(stations, s, k2));
        } else {
            assert(u as int == time_vert(stations, s2, k2));
            lemma_is_time_vert(stations, s2, k2, u as int);
        }
    }
    assert forall|u: usize| #[trigger] edges.contains_key((u, stations[s].fin)) implies exists|
        k: int,
    | 0 <= k < stations[s].times@.len() && u as int == time_vert(stations, s, k) by {
        let v = stations[s].fin;
        assert(is_fin_vert(stations, v as int));
        lemma_vert_kinds(stations, v as int);
        assert(is_station_edge(stations, u, v)) by {
            if is_travel_edge(mc, date, stations, u, v) {
                lemma_travel_edge_time_verts(mc, date, stations, u, v);
            }
        }
        let (s2, k2) = choose|s2: int, k2: int| station_edge_step(stations, s2, k2, u, v);
        assert(owns(stations, s, v as int));
        if k2 + 1 < stations[s2].times@.len() && v as int == time_vert(stations, s2, k2 + 1)
            && u as int == time_vert(stations, s2, k2) {
            lemma_is_time_vert(stations, s2, k2 + 1, v as int);
        } else if v as int == time_vert(stations, s2, k2) && u as int == stations[s2].init {
            lemma_is_time_vert(stations, s2, k2, v as int);
        } else {
            assert(v as int == stations[s2].fin);
            assert(owns(stations, s2, v as int));
            lemma_owner_unique(stations, s2, s, v as int);
            assert(u as int == time_vert(stations, s, k2));
        }
    }
}

} // verus!
