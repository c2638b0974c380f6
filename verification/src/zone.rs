use vstd::prelude::*;

verus! {

/// A seating zone.
#[derive(Debug, Clone, Copy, PartialEq, Eq, Hash, Structural)]
pub enum Zone {
    Zone1,
    Zone2a,
    Zone2b,
    Zone3,
}

impl Zone {
    /// Every zone, in declaration order.
    pub fn all() -> (r: [Zone; 4])
        ensures
            r@ == seq![Zone::Zone1, Zone::Zone2a, Zone::Zone2b, Zone::Zone3],
    {
        [Zone::Zone1, Zone::Zone2a, Zone::Zone2b, Zone::Zone3]
    }

    /// Position of the zone in `Zone::all()`.
    pub open spec fn spec_index(self) -> int {
        match self {
            Zone::Zone1 => 0,
            Zone::Zone2a => 1,
            Zone::Zone2b => 2,
            Zone::Zone3 => 3,
        }
    }

    /// Position of the zone in `Zone::all()`.
    pub fn index(self) -> (r: usize)
        ensures
            r == self.spec_index(),
            r < 4,
    {
        match self {
            Zone::Zone1 => 0,
            Zone::Zone2a => 1,
            Zone::Zone2b => 2,
            Zone::Zone3 => 3,
        }
    }

    /// Whether the zone belongs to the Zone 2 area (2a or 2b).
    pub open spec fn spec_in_zone2(self) -> bool {
        self == Zone::Zone2a || self == Zone::Zone2b
    }

    /// Whether the zone belongs to the Zone 2 area (2a or 2b).
    pub fn in_zone2(self) -> (r: bool)
        ensures
            r == self.spec_in_zone2(),
    {
        match self {
            Zone::Zone2a | Zone::Zone2b => true,
            _ => false,
        }
    }
}

/// The zone at position `i` of `Zone::all()`.
pub open spec fn zone_at(i: int) -> Zone {
    if i == 0 {
        Zone::Zone1
    } else if i == 1 {
        Zone::Zone2a
    } else if i == 2 {
        Zone::Zone2b
    } else {
        Zone::Zone3
    }
}

/// The person sat in the Zone 2 area in both of the last two charts.
pub open spec fn zone2_twice(prev1: Option<Zone>, prev2: Option<Zone>) -> bool {
    &&& prev1 matches Some(a)
    &&& prev2 matches Some(b)
    &&& a.spec_in_zone2()
    &&& b.spec_in_zone2()
}

/// The seating rule: given the zone a person had in the most recent chart
/// (`prev1`) and in the one before it (`prev2`), may the person sit in `z`?
/// Zone 3 is always allowed; no other zone may be taken twice in a row; and
/// after two consecutive charts in the Zone 2 area, neither 2a nor 2b may
/// be taken.
pub open spec fn zone_allowed(z: Zone, prev1: Option<Zone>, prev2: Option<Zone>) -> bool {
    ||| z == Zone::Zone3
    ||| prev1 != Some(z) && !(z.spec_in_zone2() && zone2_twice(prev1, prev2))
}

/// The order in which allowed zones are listed.
pub open spec fn candidate_order() -> Seq<Zone> {
    seq![Zone::Zone3, Zone::Zone1, Zone::Zone2a, Zone::Zone2b]
}

/// The zones a person may take next, in candidate order.
pub open spec fn allowed_zones_spec(prev1: Option<Zone>, prev2: Option<Zone>) -> Seq<Zone> {
    candidate_order().filter(|z: Zone| zone_allowed(z, prev1, prev2))
}

/// Zone 3 is allowed whatever a person's previous zones were.
pub proof fn lemma_zone3_always_allowed(prev1: Option<Zone>, prev2: Option<Zone>)
    ensures
        zone_allowed(Zone::Zone3, prev1, prev2),
        allowed_zones_spec(prev1, prev2).contains(Zone::Zone3),
{
    let f = |z: Zone| zone_allowed(z, prev1, prev2);
    assert(candidate_order()[0] == Zone::Zone3);
    candidate_order().lemma_filter_contains(f, 0);
}

/// The position at which an allowed zone is listed: Zone 3 first, then
/// Zone 1, 2a and 2b.
pub open spec fn listing_rank(z: Zone) -> int {
    match z {
        Zone::Zone3 => 0,
        Zone::Zone1 => 1,
        Zone::Zone2a => 2,
        Zone::Zone2b => 3,
    }
}

/// The seating rule in full. Zone 3 is always allowed. Any other zone is
/// allowed exactly when the person did not sit in it in the most recent
/// chart and, for Zone 2a and 2b, the person did not sit in the Zone 2 area
/// (2a or 2b) in both of the last two charts. So where the chart before the
/// most recent one has the person outside the Zone 2 area, or not at all,
/// every zone but the most recent one is allowed. The allowed zones are
/// listed once each, Zone 3 first, then Zone 1, 2a and 2b.
pub proof fn lemma_seating_rule(z: Zone, prev1: Option<Zone>, prev2: Option<Zone>)
    ensures
        zone_allowed(z, prev1, prev2) <==> (z == Zone::Zone3 || (prev1 != Some(z) && (z
            == Zone::Zone1 || !((prev1 == Some(Zone::Zone2a) || prev1 == Some(Zone::Zone2b)) && (
        prev2 == Some(Zone::Zone2a) || prev2 == Some(Zone::Zone2b)))))),
        allowed_zones_spec(prev1, prev2).contains(z) <==> zone_allowed(z, prev1, prev2),
        !(prev2 == Some(Zone::Zone2a) || prev2 == Some(Zone::Zone2b)) ==> (allowed_zones_spec(
            prev1,
            prev2,
        ).contains(z) <==> (z == Zone::Zone3 || prev1 != Some(z))),
        !(prev1 == Some(Zone::Zone2a) || prev1 == Some(Zone::Zone2b)) ==> (allowed_zones_spec(
            prev1,
            prev2,
        ).contains(z) <==> (z == Zone::Zone3 || prev1 != Some(z))),
        allowed_zones_spec(prev1, prev2)[0] == Zone::Zone3,
        forall|i: int, j: int|
            0 <= i < j < allowed_zones_spec(prev1, prev2).len() ==> listing_rank(
                #[trigger] allowed_zones_spec(prev1, prev2)[i],
            ) < listing_rank(#[trigger] allowed_zones_spec(prev1, prev2)[j]),
{
    let f = |w: Zone| zone_allowed(w, prev1, prev2);
    let c = candidate_order();
    reveal_with_fuel(Seq::filter, 5);
    assert(c.drop_last() =~= seq![Zone::Zone3, Zone::Zone1, Zone::Zone2a]);
    assert(c.drop_last().drop_last() =~= seq![Zone::Zone3, Zone::Zone1]);
    assert(c.drop_last().drop_last().drop_last() =~= seq![Zone::Zone3]);
    assert(c.drop_last().drop_last().drop_last().drop_last() =~= Seq::<Zone>::empty());
    let q: int = listing_rank(z);
    assert(c[q] == z);
    if f(z) {
        c.lemma_filter_contains(f, q);
    }
    if c.filter(f).contains(z) {
        let k = choose|k: int| 0 <= k < c.filter(f).len() && c.filter(f)[k] == z;
        c.lemma_filter_pred(f, k);
    }
}

} // verus!
