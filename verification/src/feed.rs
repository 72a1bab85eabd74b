//! The timetable feed: stops, passings, journeys and their calendar
//! references, plus the merge of several source feeds into one shared
//! stop-index space.

use vstd::prelude::*;

verus! {

use crate::calendar::OperatingPeriod;
use crate::calendar::period_valid;
use crate::calendar::SECONDS_PER_DAY;

/// The advertised kind of a stop place.
#[derive(Debug, Clone, Copy, PartialEq, Eq, Structural)]
pub enum StopPlaceType {
    RailStation,
    Other,
    Unknown,
}

/// The stop place kind encoded by a source string.
pub open spec fn stop_place_type_of(s: Seq<char>) -> StopPlaceType {
    if s == "railStation"@ {
        StopPlaceType::RailStation
    } else if s == "other"@ {
        StopPlaceType::Other
    } else {
        StopPlaceType::Unknown
    }
}

/// The display label of a stop place kind.
pub open spec fn stop_place_type_label(t: StopPlaceType) -> Seq<char> {
    match t {
        StopPlaceType::RailStation => "RailStation"@,
        StopPlaceType::Other => "Other"@,
        StopPlaceType::Unknown => "Unknown"@,
    }
}

impl StopPlaceType {
    /// Decodes the source representation of a stop place kind; anything
    /// unrecognised maps to `Unknown`.
    pub fn from_str(s: &str) -> (r: Self)
        ensures
            r == stop_place_type_of(s@),
    {
        let owned = s.to_owned();
        if owned == String::from_str("railStation") {
            StopPlaceType::RailStation
        } else if owned == String::from_str("other") {
            StopPlaceType::Other
        } else {
            StopPlaceType::Unknown
        }
    }

    /// The display label of this kind.
    pub fn label(&self) -> (r: String)
        ensures
            r@ == stop_place_type_label(*self),
    {
        match self {
            StopPlaceType::RailStation => String::from_str("RailStation"),
            StopPlaceType::Other => String::from_str("Other"),
            StopPlaceType::Unknown => String::from_str("Unknown"),
        }
    }
}

/// One stop visit within a journey. Times of day are seconds since
/// midnight; the first passing typically has only a departure, the last
/// only an arrival.
#[derive(Debug, Clone, Copy, PartialEq, Eq, Structural)]
pub struct Passing {
    /// Index of the stop in the owning feed's stop list.
    pub stop_point: usize,
    pub arrival: Option<u32>,
    pub departure: Option<u32>,
}

/// A scheduled trip: a stop sequence, a validity window in day numbers,
/// and references into the owning feed's day-type table.
#[derive(Debug)]
pub struct Journey {
    pub passings: Vec<Passing>,
    pub valid_from: u32,
    pub valid_to: u32,
    /// Indices into the owning feed's day-type table.
    pub days: Vec<usize>,
}

/// One source feed: its calendar tables, stop names and journeys.
#[derive(Debug)]
pub struct Connection {
    pub operating_periods: Vec<OperatingPeriod>,
    /// A day type optionally refers to one operating period.
    pub day_types: Vec<Option<usize>>,
    /// Stop names by index.
    pub stops: Vec<String>,
    pub journeys: Vec<Journey>,
}

/// One source feed after its stops were remapped into the merged stop
/// list: as `Connection`, minus the per-feed stop names.
#[derive(Debug)]
pub struct SubMultiConnection {
    pub operating_periods: Vec<OperatingPeriod>,
    pub day_types: Vec<Option<usize>>,
    pub journeys: Vec<Journey>,
}

/// Several source feeds merged over one shared stop list.
#[derive(Debug)]
pub struct MultiConnection {
    /// Stop names by global index.
    pub stops: Vec<String>,
    pub connections: Vec<SubMultiConnection>,
}

/// Is the date inside the journey's validity window?
pub open spec fn journey_window(j: Journey, date: u32) -> bool {
    j.valid_from <= date <= j.valid_to
}

/// Does day-type reference `d` of `parent` validate the date: the day type
/// exists, has an operating period, and the period covers the date.
pub open spec fn day_ref_valid(parent: SubMultiConnection, d: int, date: u32) -> bool {
    &&& 0 <= d < parent.day_types@.len()
    &&& match parent.day_types@[d] {
        Some(p) => (p as int) < parent.operating_periods@.len()
            && period_valid(parent.operating_periods@[p as int], date),
        None => false,
    }
}

/// A journey runs on a date exactly when the date lies in its validity
/// window and at least one of its day-type references validates the date.
pub open spec fn journey_valid(parent: SubMultiConnection, j: Journey, date: u32) -> bool {
    &&& journey_window(j, date)
    &&& exists|k: int| 0 <= k < j.days@.len() && day_ref_valid(parent, j.days@[k] as int, date)
}

/// Well-formedness of one passing against the shared stop list: the stop
/// index is in range and any times of day are below one day.
pub open spec fn passing_wf(p: Passing, n_stops: nat) -> bool {
    &&& (p.stop_point as nat) < n_stops
    &&& match p.arrival {
        Some(t) => t < SECONDS_PER_DAY,
        None => true,
    }
    &&& match p.departure {
        Some(t) => t < SECONDS_PER_DAY,
        None => true,
    }
}

/// Well-formedness of a journey's outgoing references.
pub open spec fn journey_wf(j: Journey, n_day_types: nat, n_stops: nat) -> bool {
    &&& forall|k: int| 0 <= k < j.days@.len() ==> ((#[trigger] j.days@[k]) as nat) < n_day_types
    &&& forall|i: int| 0 <= i < j.passings@.len() ==> passing_wf(#[trigger] j.passings@[i], n_stops)
}

/// Well-formedness of one merged source feed.
pub open spec fn sub_wf(sc: SubMultiConnection, n_stops: nat) -> bool {
    &&& forall|d: int| 0 <= d < sc.day_types@.len() ==> match #[trigger] sc.day_types@[d] {
        Some(p) => (p as nat) < sc.operating_periods@.len(),
        None => true,
    }
    &&& forall|j: int| 0 <= j < sc.journeys@.len()
        ==> journey_wf(#[trigger] sc.journeys@[j], sc.day_types@.len(), n_stops)
}

/// Well-formedness of a merged feed: every reference lands in range.
pub open spec fn mc_wf(mc: MultiConnection) -> bool {
    forall|c: int| 0 <= c < mc.connections@.len()
        ==> sub_wf(#[trigger] mc.connections@[c], mc.stops@.len())
}

/// Pairwise-distinct stop names.
pub open spec fn stops_distinct(stops: Seq<String>) -> bool {
    forall|i: int, j: int| 0 <= i < j < stops.len() ==> stops[i]@ != stops[j]@
}

/// The name views of a stop list.
pub open spec fn names_of(stops: Seq<String>) -> Seq<Seq<char>> {
    stops.map_values(|s: String| s@)
}

/// The stop names of the source feeds laid out in feed order: every name
/// of the feeds before `c`, then the first `s` names of feed `c`.
pub open spec fn names_upto(conns: Seq<Connection>, c: int, s: int) -> Seq<Seq<char>>
    decreases c, s,
{
    if c < 0 || s < 0 {
        Seq::empty()
    } else if s > 0 {
        names_upto(conns, c, s - 1).push(conns[c].stops@[s - 1]@)
    } else if c > 0 {
        names_upto(conns, c - 1, conns[c - 1].stops@.len() as int)
    } else {
        Seq::empty()
    }
}

/// Every stop name of every source feed, in feed order.
pub open spec fn all_names(conns: Seq<Connection>) -> Seq<Seq<char>> {
    names_upto(conns, conns.len() as int, 0)
}

/// Names with later repetitions removed, keeping first-seen order.
pub open spec fn dedup_first(names: Seq<Seq<char>>) -> Seq<Seq<char>>
    decreases names.len(),
{
    if names.len() == 0 {
        Seq::empty()
    } else {
        let prefix = dedup_first(names.drop_last());
        if prefix.contains(names.last()) {
            prefix
        } else {
            prefix.push(names.last())
        }
    }
}

/// Deduplication keeps exactly the distinct members, each once.
pub proof fn lemma_dedup_first_props(names: Seq<Seq<char>>)
    ensures
        forall|i: int, j: int| 0 <= i < j < dedup_first(names).len()
            ==> dedup_first(names)[i] != dedup_first(names)[j],
        forall|x: Seq<char>| dedup_first(names).contains(x) <==> names.contains(x),
    decreases names.len(),
{
    if names.len() == 0 {
    } else {
        lemma_dedup_first_props(names.drop_last());
        let prefix = dedup_first(names.drop_last());
        assert forall|x: Seq<char>| names.contains(x) implies dedup_first(names).contains(x) by {
            let i = choose|i: int| 0 <= i < names.len() && names[i] == x;
            if i < names.len() - 1 {
                assert(names.drop_last().contains(x)) by {
                    assert(names.drop_last()[i] == x);
                }
                if prefix.contains(x) {
                    let k = choose|k: int| 0 <= k < prefix.len() && prefix[k] == x;
                    assert(dedup_first(names)[k] == x);
                }
            } else {
                if prefix.contains(names.last()) {
                } else {
                    assert(dedup_first(names).last() == x);
                }
            }
        }
        assert forall|x: Seq<char>| dedup_first(names).contains(x) implies names.contains(x) by {
            let k = choose|k: int| 0 <= k < dedup_first(names).len() && dedup_first(names)[k]
                == x;
            if k < prefix.len() {
                assert(prefix[k] == x);
                assert(prefix.contains(x));
                assert(names.drop_last().contains(x));
                let i = choose|i: int| 0 <= i < names.drop_last().len() && names.drop_last()[i]
                    == x;
                assert(names.drop_last()[i] == x);
                assert(names[i] == x);
            } else {
                assert(names.last() == x);
                assert(names[names.len() - 1] == x);
            }
        }
    }
}

/// Well-formedness of one source feed against its own tables.
pub open spec fn conn_wf(cn: Connection) -> bool {
    &&& forall|d: int| 0 <= d < cn.day_types@.len() ==> match #[trigger] cn.day_types@[d] {
        Some(p) => (p as nat) < cn.operating_periods@.len(),
        None => true,
    }
    &&& forall|j: int| 0 <= j < cn.journeys@.len()
        ==> journey_wf(#[trigger] cn.journeys@[j], cn.day_types@.len(), cn.stops@.len())
}

/// A journey carried into the merged feed: same window, same day-type
/// references, and each passing keeps its times while its stop index is
/// remapped to a slot of the merged stop list holding the same name.
pub open spec fn remapped_journey(
    nj: Journey,
    oj: Journey,
    stops: Seq<String>,
    old_stops: Seq<String>,
) -> bool {
    &&& nj.valid_from == oj.valid_from
    &&& nj.valid_to == oj.valid_to
    &&& nj.days == oj.days
    &&& nj.passings@.len() == oj.passings@.len()
    &&& forall|i: int| 0 <= i < oj.passings@.len() ==> {
        let np = #[trigger] nj.passings@[i];
        let op = oj.passings@[i];
        &&& np.arrival == op.arrival
        &&& np.departure == op.departure
        &&& (np.stop_point as int) < stops.len()
        &&& stops[np.stop_point as int]@ == old_stops[op.stop_point as int]@
    }
}

/// A source feed carried into the merged feed: calendar tables unchanged,
/// journeys remapped onto the merged stop list.
pub open spec fn remapped_sub(sc: SubMultiConnection, cn: Connection, stops: Seq<String>) -> bool {
    &&& sc.operating_periods == cn.operating_periods
    &&& sc.day_types == cn.day_types
    &&& sc.journeys@.len() == cn.journeys@.len()
    &&& forall|j: int| 0 <= j < cn.journeys@.len()
        ==> remapped_journey(#[trigger] sc.journeys@[j], cn.journeys@[j], stops, cn.stops@)
}

/// Remapping statements survive appending new names to the merged list.
proof fn lemma_remapped_sub_extend(
    sc: SubMultiConnection,
    cn: Connection,
    stops: Seq<String>,
    stops2: Seq<String>,
)
    requires
        remapped_sub(sc, cn, stops),
        stops.len() <= stops2.len(),
        forall|i: int| 0 <= i < stops.len() ==> stops2[i] == stops[i],
    ensures
        remapped_sub(sc, cn, stops2),
{
    assert forall|j: int| 0 <= j < cn.journeys@.len() implies remapped_journey(
        #[trigger] sc.journeys@[j],
        cn.journeys@[j],
        stops2,
        cn.stops@,
    ) by {
        let nj = sc.journeys@[j];
        let oj = cn.journeys@[j];
        assert forall|i: int| 0 <= i < oj.passings@.len() implies {
            let np = #[trigger] nj.passings@[i];
            let op = oj.passings@[i];
            &&& np.arrival == op.arrival
            &&& np.departure == op.departure
            &&& (np.stop_point as int) < stops2.len()
            &&& stops2[np.stop_point as int]@ == cn.stops@[op.stop_point as int]@
        } by {
            assert(remapped_journey(nj, oj, stops, cn.stops@));
            assert(nj.passings@[i].arrival == oj.passings@[i].arrival);
        }
    }
}

/// A merged feed built from well-formed source feeds is well-formed.
proof fn lemma_remap_wf(mc: MultiConnection, orig: Seq<Connection>)
    requires
        mc.connections@.len() == orig.len(),
        forall|c: int| 0 <= c < orig.len() ==> conn_wf(#[trigger] orig[c]),
        forall|c: int| 0 <= c < orig.len()
            ==> remapped_sub(#[trigger] mc.connections@[c], orig[c], mc.stops@),
    ensures
        mc_wf(mc),
{
    assert forall|c: int| 0 <= c < mc.connections@.len() implies sub_wf(
        #[trigger] mc.connections@[c],
        mc.stops@.len(),
    ) by {
        let sc = mc.connections@[c];
        let cn = orig[c];
        assert(conn_wf(cn));
        assert(remapped_sub(sc, cn, mc.stops@));
        assert forall|j: int| 0 <= j < sc.journeys@.len() implies journey_wf(
            #[trigger] sc.journeys@[j],
            sc.day_types@.len(),
            mc.stops@.len(),
        ) by {
            let nj = sc.journeys@[j];
            let oj = cn.journeys@[j];
            assert(journey_wf(oj, cn.day_types@.len(), cn.stops@.len()));
            assert(remapped_journey(nj, oj, mc.stops@, cn.stops@));
            assert forall|i: int| 0 <= i < nj.passings@.len() implies passing_wf(
                #[trigger] nj.passings@[i],
                mc.stops@.len(),
            ) by {
                assert(passing_wf(oj.passings@[i], cn.stops@.len()));
                assert(nj.passings@[i].arrival == oj.passings@[i].arrival);
            }
        }
    }
}

/// First index in `stops` whose name equals `name`, if any.
fn find_name(stops: &Vec<String>, name: &String) -> (r: Option<usize>)
    ensures
        match r {
            Some(g) => (g as int) < stops@.len() && stops@[g as int]@ == name@,
            None => forall|g: int| 0 <= g < stops@.len() ==> stops@[g]@ != name@,
        },
{
    let mut g: usize = 0;
    while g < stops.len()
        invariant
            g <= stops@.len(),
            forall|g2: int| 0 <= g2 < g ==> stops@[g2]@ != name@,
        decreases stops@.len() - g,
    {
        if stops[g] == *name {
            return Some(g);
        }
        g = g + 1;
    }
    None
}

impl Journey {
    /// Does this journey run on the given date? True exactly when the date
    /// lies in the validity window and some referenced day type has an
    /// operating period covering the date.
    pub fn is_valid(&self, parent: &SubMultiConnection, date: u32) -> (r: bool)
        requires
            forall|k: int| 0 <= k < self.days@.len()
                ==> ((#[trigger] self.days@[k]) as int) < parent.day_types@.len(),
            forall|d: int| 0 <= d < parent.day_types@.len() ==> match #[trigger] parent
                .day_types@[d] {
                Some(p) => (p as int) < parent.operating_periods@.len(),
                None => true,
            },
        ensures
            r == journey_valid(*parent, *self, date),
    {
        if self.valid_from > date || date > self.valid_to {
            return false;
        }
        let mut k: usize = 0;
        while k < self.days.len()
            invariant
                k <= self.days@.len(),
                journey_window(*self, date),
                forall|k2: int| 0 <= k2 < k
                    ==> !day_ref_valid(*parent, (#[trigger] self.days@[k2]) as int, date),
                forall|k2: int| 0 <= k2 < self.days@.len()
                    ==> ((#[trigger] self.days@[k2]) as int) < parent.day_types@.len(),
                forall|d: int| 0 <= d < parent.day_types@.len() ==> match #[trigger] parent
                    .day_types@[d] {
                    Some(p) => (p as int) < parent.operating_periods@.len(),
                    None => true,
                },
            decreases self.days@.len() - k,
        {
            let day_idx = self.days[k];
            if let Some(period_idx) = parent.day_types[day_idx] {
                if parent.operating_periods[period_idx].is_valid(date) {
                    proof {
                        assert(day_ref_valid(*parent, self.days@[k as int] as int, date));
                    }
                    return true;
                }
            }
            k = k + 1;
        }
        false
    }
}

impl MultiConnection {
    /// Merges several source feeds into one shared stop-index space:
    /// duplicate stop names collapse into the first-seen slot, every
    /// journey's stop indices are remapped accordingly, and the calendar
    /// tables are carried over unchanged.
    pub fn from_connections(value: Vec<Connection>) -> (r: MultiConnection)
        requires
            forall|c: int| 0 <= c < value@.len() ==> conn_wf(#[trigger] value@[c]),
        ensures
            r.connections@.len() == value@.len(),
            names_of(r.stops@) == dedup_first(all_names(value@)),
            stops_distinct(r.stops@),
            mc_wf(r),
            forall|c: int| 0 <= c < value@.len()
                ==> remapped_sub(#[trigger] r.connections@[c], value@[c], r.stops@),
    {
        let ghost orig = value@;
        let mut input = value;
        let mut new_stops: Vec<String> = Vec::new();
        let mut sub_conns: Vec<SubMultiConnection> = Vec::new();
        proof {
            assert(names_of(new_stops@) =~= Seq::<Seq<char>>::empty());
            assert(input@ =~= orig.subrange(0, orig.len() as int));
        }
        while input.len() > 0
            invariant
                sub_conns@.len() + input@.len() == orig.len(),
                input@ == orig.subrange(sub_conns@.len() as int, orig.len() as int),
                forall|c: int| 0 <= c < orig.len() ==> conn_wf(#[trigger] orig[c]),
                names_of(new_stops@) == dedup_first(
                    names_upto(orig, sub_conns@.len() as int, 0),
                ),
                forall|c2: int| 0 <= c2 < sub_conns@.len()
                    ==> remapped_sub(#[trigger] sub_conns@[c2], orig[c2], new_stops@),
            decreases input@.len(),
        {
            let ghost c = sub_conns@.len() as int;
            let conn = input.remove(0);
            proof {
                assert(conn == orig[c]);
                assert(input@ =~= orig.subrange(c + 1, orig.len() as int));
            }
            let Connection { operating_periods, day_types, stops, journeys } = conn;
            let mut remap: Vec<usize> = Vec::new();
            let mut s: usize = 0;
            while s < stops.len()
                invariant
                    0 <= c < orig.len(),
                    stops@ == orig[c].stops@,
                    s <= stops@.len(),
                    remap@.len() == s,
                    names_of(new_stops@) == dedup_first(names_upto(orig, c, s as int)),
                    forall|s2: int| 0 <= s2 < s ==> ((#[trigger] remap@[s2]) as int)
                        < new_stops@.len() && new_stops@[remap@[s2] as int]@ == stops@[s2]@,
                    forall|c2: int| 0 <= c2 < sub_conns@.len()
                        ==> remapped_sub(#[trigger] sub_conns@[c2], orig[c2], new_stops@),
                decreases stops@.len() - s,
            {
                let ghost pre_names = names_of(new_stops@);
                let ghost prev_stops = new_stops@;
                let name_ref = &stops[s];
                match find_name(&new_stops, name_ref) {
                    Some(g) => {
                        remap.push(g);
                        proof {
                            assert(pre_names.contains(stops@[s as int]@)) by {
                                assert(pre_names[g as int] == stops@[s as int]@);
                            }
                        }
                    },
                    None => {
                        let g = new_stops.len();
                        new_stops.push(name_ref.clone());
                        remap.push(g);
                        proof {
                            assert(!pre_names.contains(stops@[s as int]@)) by {
                                if pre_names.contains(stops@[s as int]@) {
                                    let g2 = choose|g2: int| 0 <= g2 < pre_names.len()
                                        && pre_names[g2] == stops@[s as int]@;
                                    assert(prev_stops[g2]@ == stops@[s as int]@);
                                }
                            }
                            assert(names_of(new_stops@) =~= pre_names.push(stops@[s as int]@));
                            assert forall|c2: int| 0 <= c2 < sub_conns@.len() implies
                                remapped_sub(#[trigger] sub_conns@[c2], orig[c2], new_stops@) by {
                                lemma_remapped_sub_extend(
                                    sub_conns@[c2],
                                    orig[c2],
                                    prev_stops,
                                    new_stops@,
                                );
                            }
                        }
                    },
                }
                proof {
                    let names1 = names_upto(orig, c, s as int + 1);
                    assert(names1 == names_upto(orig, c, s as int).push(stops@[s as int]@));
                    assert(names1.drop_last() =~= names_upto(orig, c, s as int));
                    assert(names_of(new_stops@) == dedup_first(names1));
                }
                s = s + 1;
            }
            let mut new_journeys: Vec<Journey> = Vec::new();
            let mut journeys_in = journeys;
            proof {
                assert(journeys_in@ =~= orig[c].journeys@.subrange(
                    0,
                    orig[c].journeys@.len() as int,
                ));
            }
            while journeys_in.len() > 0
                invariant
                    0 <= c < orig.len(),
                    conn_wf(orig[c]),
                    stops@ == orig[c].stops@,
                    remap@.len() == stops@.len(),
                    forall|s2: int| 0 <= s2 < stops@.len() ==> ((#[trigger] remap@[s2]) as int)
                        < new_stops@.len() && new_stops@[remap@[s2] as int]@ == stops@[s2]@,
                    new_journeys@.len() + journeys_in@.len() == orig[c].journeys@.len(),
                    journeys_in@ == orig[c].journeys@.subrange(
                        new_journeys@.len() as int,
                        orig[c].journeys@.len() as int,
                    ),
                    forall|j2: int| 0 <= j2 < new_journeys@.len() ==> remapped_journey(
                        #[trigger] new_journeys@[j2],
                        orig[c].journeys@[j2],
                        new_stops@,
                        orig[c].stops@,
                    ),
                decreases journeys_in@.len(),
            {
                let ghost j = new_journeys@.len() as int;
                let jour = journeys_in.remove(0);
                proof {
                    assert(jour == orig[c].journeys@[j]);
                    assert(journeys_in@ =~= orig[c].journeys@.subrange(
                        j + 1,
                        orig[c].journeys@.len() as int,
                    ));
                    assert(journey_wf(jour, orig[c].day_types@.len(), orig[c].stops@.len()));
                }
                let mut new_passings: Vec<Passing> = Vec::new();
                let mut i: usize = 0;
                while i < jour.passings.len()
                    invariant
                        i <= jour.passings@.len(),
                        new_passings@.len() == i,
                        remap@.len() == stops@.len(),
                        forall|s2: int| 0 <= s2 < stops@.len() ==> ((#[trigger] remap@[s2]) as int)
                            < new_stops@.len() && new_stops@[remap@[s2] as int]@ == stops@[s2]@,
                        forall|i2: int| 0 <= i2 < jour.passings@.len()
                            ==> passing_wf(#[trigger] jour.passings@[i2], stops@.len()),
                        forall|i2: int| 0 <= i2 < i ==> {
                            let np = #[trigger] new_passings@[i2];
                            let op = jour.passings@[i2];
                            &&& np.arrival == op.arrival
                            &&& np.departure == op.departure
                            &&& (np.stop_point as int) < new_stops@.len()
                            &&& new_stops@[np.stop_point as int]@ == stops@[op.stop_point as int]@
                        },
                    decreases jour.passings@.len() - i,
                {
                    let p = jour.passings[i];
                    let g = remap[p.stop_point];
                    new_passings.push(
                        Passing { stop_point: g, arrival: p.arrival, departure: p.departure },
                    );
                    i = i + 1;
                }
                new_journeys.push(
                    Journey {
                        passings: new_passings,
                        valid_from: jour.valid_from,
                        valid_to: jour.valid_to,
                        days: jour.days,
                    },
                );
            }
            sub_conns.push(
                SubMultiConnection { operating_periods, day_types, journeys: new_journeys },
            );
            proof {
                assert(remapped_sub(sub_conns@[c], orig[c], new_stops@));
                assert(names_upto(orig, c + 1, 0) == names_upto(
                    orig,
                    c,
                    orig[c].stops@.len() as int,
                ));
            }
        }
        let result = MultiConnection { stops: new_stops, connections: sub_conns };
        proof {
            assert(orig.subrange(orig.len() as int, orig.len() as int).len() == 0);
            lemma_dedup_first_props(all_names(orig));
            assert forall|i: int, j: int| 0 <= i < j < result.stops@.len() implies
                result.stops@[i]@ != result.stops@[j]@ by {
                assert(names_of(result.stops@)[i] == result.stops@[i]@);
                assert(names_of(result.stops@)[j] == result.stops@[j]@);
            }
            lemma_remap_wf(result, orig);
        }
        result
    }

    /// The positions of every journey that runs on the given date, as
    /// `(connection index, journey index)` pairs: the listed pairs are
    /// exactly the valid ones.
    pub fn valid_journeys(&self, date: u32) -> (pairs: Vec<(usize, usize)>)
        requires
            mc_wf(*self),
        ensures
            forall|q: int| 0 <= q < pairs@.len() ==> {
                let cj = #[trigger] pairs@[q];
                &&& (cj.0 as int) < self.connections@.len()
                &&& (cj.1 as int) < self.connections@[cj.0 as int].journeys@.len()
                &&& journey_valid(
                    self.connections@[cj.0 as int],
                    self.connections@[cj.0 as int].journeys@[cj.1 as int],
                    date,
                )
            },
            forall|c: int, j: int|
                (0 <= c < self.connections@.len() && 0 <= j
                    < self.connections@[c].journeys@.len() && journey_valid(
                    self.connections@[c],
                    #[trigger] self.connections@[c].journeys@[j],
                    date,
                )) ==> pairs@.contains((c as usize, j as usize)),
    {
        let mut pairs: Vec<(usize, usize)> = Vec::new();
        let mut c: usize = 0;
        while c < self.connections.len()
            invariant
                mc_wf(*self),
                c <= self.connections@.len(),
                forall|q: int| 0 <= q < pairs@.len() ==> {
                    let cj = #[trigger] pairs@[q];
                    &&& (cj.0 as int) < self.connections@.len()
                    &&& (cj.1 as int) < self.connections@[cj.0 as int].journeys@.len()
                    &&& journey_valid(
                        self.connections@[cj.0 as int],
                        self.connections@[cj.0 as int].journeys@[cj.1 as int],
                        date,
                    )
                },
                forall|c2: int, j2: int|
                    (0 <= c2 < c && 0 <= j2 < self.connections@[c2].journeys@.len()
                        && journey_valid(
                        self.connections@[c2],
                        #[trigger] self.connections@[c2].journeys@[j2],
                        date,
                    )) ==> pairs@.contains((c2 as usize, j2 as usize)),
            decreases self.connections@.len() - c,
        {
            let conn = &self.connections[c];
            let mut j: usize = 0;
            while j < conn.journeys.len()
                invariant
                    mc_wf(*self),
                    c < self.connections@.len(),
                    conn == self.connections@[c as int],
                    j <= conn.journeys@.len(),
                    forall|q: int| 0 <= q < pairs@.len() ==> {
                        let cj = #[trigger] pairs@[q];
                        &&& (cj.0 as int) < self.connections@.len()
                        &&& (cj.1 as int) < self.connections@[cj.0 as int].journeys@.len()
                        &&& journey_valid(
                            self.connections@[cj.0 as int],
                            self.connections@[cj.0 as int].journeys@[cj.1 as int],
                            date,
                        )
                    },
                    forall|c2: int, j2: int|
                        (0 <= c2 < c && 0 <= j2 < self.connections@[c2].journeys@.len()
                            && journey_valid(
                            self.connections@[c2],
                            #[trigger] self.connections@[c2].journeys@[j2],
                            date,
                        )) ==> pairs@.contains((c2 as usize, j2 as usize)),
                    forall|j2: int|
                        (0 <= j2 < j && journey_valid(
                            self.connections@[c as int],
                            #[trigger] self.connections@[c as int].journeys@[j2],
                            date,
                        )) ==> pairs@.contains((c, j2 as usize)),
                decreases conn.journeys@.len() - j,
            {
                let ghost old_pairs = pairs@;
                if conn.journeys[j].is_valid(conn, date) {
                    pairs.push((c, j));
                    proof {
                        assert(pairs@[pairs@.len() - 1] == (c, j));
                        assert(forall|x: (usize, usize)| old_pairs.contains(x)
                            ==> pairs@.contains(x)) by {
                            assert forall|x: (usize, usize)| old_pairs.contains(x)
                                implies pairs@.contains(x) by {
                                let q = choose|q: int| 0 <= q < old_pairs.len() && old_pairs[q]
                                    == x;
                                assert(pairs@[q] == x);
                            }
                        }
                    }
                }
                j = j + 1;
            }
            c = c + 1;
        }
        pairs
    }
}

/// Calendar OR semantics: a journey is valid on a date exactly when the
/// date lies in its validity window and the per-day-type validities,
/// taken in order, OR to true; a journey none of whose day-type
/// references validates the date never runs, whatever its window says.
pub proof fn lemma_calendar_or(parent: SubMultiConnection, j: Journey, date: u32)
    ensures
        journey_valid(parent, j, date) <==> (journey_window(j, date) && exists|k: int|
            0 <= k < j.days@.len() && day_ref_valid(parent, j.days@[k] as int, date)),
        (forall|k: int| 0 <= k < j.days@.len() ==> !day_ref_valid(
            parent,
            (#[trigger] j.days@[k]) as int,
            date,
        )) ==> !journey_valid(parent, j, date),
{
}

} // verus!
