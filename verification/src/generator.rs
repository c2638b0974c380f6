use vstd::prelude::*;

use crate::chart::{
    lemma_pairs_map, lemma_zone_counts_sum, names_distinct, pairs_map, zone_count,
    SeatingChart,
};
use crate::random::{all_positions, pick_one, shuffled_positions, thread_rng};
use crate::text::{decimal, decimal_text, insert_sorted, lemma_text_order, strictly_sorted, views};
use vstd::string::StringExecFns;
use crate::zone::{allowed_zones_spec, candidate_order, zone2_twice, zone_allowed, Zone};

verus! {

/// A person's zone in a chart's map, if the chart seats them.
pub open spec fn lookup(m: Map<Seq<char>, Zone>, person: Seq<char>) -> Option<Zone> {
    if m.dom().contains(person) {
        Some(m[person])
    } else {
        None
    }
}

/// The capacity that a list of (zone, capacity) pairs gives zone `z`: that
/// of its last pair for `z`, or 0 where it has none.
pub open spec fn last_capacity(pairs: Seq<(Zone, usize)>, z: Zone) -> nat
    decreases pairs.len(),
{
    if pairs.len() == 0 {
        0
    } else if pairs.last().0 == z {
        pairs.last().1 as nat
    } else {
        last_capacity(pairs.drop_last(), z)
    }
}

proof fn lemma_last_pair_for(pairs: Seq<(Zone, usize)>, z: Zone, i: int)
    requires
        0 <= i < pairs.len(),
        pairs[i].0 == z,
        forall|j: int| i < j < pairs.len() ==> (#[trigger] pairs[j]).0 != z,
    ensures
        last_capacity(pairs, z) == pairs[i].1,
    decreases pairs.len(),
{
    let n = pairs.len() - 1;
    if i < n {
        let a = pairs.drop_last();
        assert(pairs[n].0 != z);
        assert(a[i] == pairs[i]);
        assert forall|j: int| i < j < a.len() implies (#[trigger] a[j]).0 != z by {
            assert(a[j] == pairs[j]);
        }
        lemma_last_pair_for(a, z, i);
    }
}

proof fn lemma_no_pair_for(pairs: Seq<(Zone, usize)>, z: Zone)
    requires
        forall|i: int| 0 <= i < pairs.len() ==> (#[trigger] pairs[i]).0 != z,
    ensures
        last_capacity(pairs, z) == 0,
    decreases pairs.len(),
{
    if pairs.len() > 0 {
        let a = pairs.drop_last();
        assert(pairs[pairs.len() - 1].0 != z);
        assert forall|i: int| 0 <= i < a.len() implies (#[trigger] a[i]).0 != z by {
            assert(a[i] == pairs[i]);
        }
        lemma_no_pair_for(a, z);
    }
}

/// The capacity that a list of (zone, capacity) pairs gives a zone is that
/// of the last pair for the zone; a zone without a pair has none.
pub proof fn lemma_later_capacity_wins(pairs: Seq<(Zone, usize)>, z: Zone)
    ensures
        (forall|i: int| 0 <= i < pairs.len() ==> (#[trigger] pairs[i]).0 != z) ==> last_capacity(
            pairs,
            z,
        ) == 0,
        forall|i: int|
            0 <= i < pairs.len() && (#[trigger] pairs[i]).0 == z && (forall|j: int|
                i < j < pairs.len() ==> (#[trigger] pairs[j]).0 != z) ==> last_capacity(pairs, z)
                == pairs[i].1,
{
    if forall|i: int| 0 <= i < pairs.len() ==> (#[trigger] pairs[i]).0 != z {
        lemma_no_pair_for(pairs, z);
    }
    assert forall|i: int|
        0 <= i < pairs.len() && (#[trigger] pairs[i]).0 == z && (forall|j: int|
            i < j < pairs.len() ==> (#[trigger] pairs[j]).0 != z) implies last_capacity(pairs, z)
        == pairs[i].1 by {
        lemma_last_pair_for(pairs, z, i);
    }
}

/// Why no chart was generated.
#[derive(Debug)]
pub enum GenerateError {
    /// Neither chart names anybody.
    NoPeople,
    /// The number of people differs from the total capacity of the zones.
    CapacityMismatch { people: usize, capacity: u128 },
    /// Some person may sit nowhere.
    NoAllowedZones { person: String },
    /// Every attempt at a random assignment ran out of seats.
    AttemptsExhausted,
}

impl GenerateError {
    /// The text that describes the error.
    pub open spec fn text(&self) -> Seq<char> {
        match self {
            GenerateError::NoPeople => "no people to assign"@,
            GenerateError::CapacityMismatch { people, capacity } => "people count ("@ + decimal(
                *people as nat,
            ) + ") does not match total capacity ("@ + decimal(*capacity as nat) + ")"@,
            GenerateError::NoAllowedZones { person } => "person "@ + person@
                + " has no allowed zones"@,
            GenerateError::AttemptsExhausted =>
                "failed to generate a valid seating chart after max attempts"@,
        }
    }

    /// The text that describes the error.
    pub fn message(&self) -> (r: String)
        ensures
            r@ == self.text(),
    {
        match self {
            GenerateError::NoPeople => String::from_str("no people to assign"),
            GenerateError::CapacityMismatch { people, capacity } => {
                let mut m = String::from_str("people count (");
                m.append(decimal_text(*people as u128).as_str());
                m.append(") does not match total capacity (");
                m.append(decimal_text(*capacity).as_str());
                m.append(")");
                m
            },
            GenerateError::NoAllowedZones { person } => {
                let mut m = String::from_str("person ");
                m.append(person.as_str());
                m.append(" has no allowed zones");
                m
            },
            GenerateError::AttemptsExhausted => String::from_str(
                "failed to generate a valid seating chart after max attempts",
            ),
        }
    }
}

/// Whether a person may take zone `z`, given the two previous charts.
pub open spec fn may_take(
    recent: Map<Seq<char>, Zone>,
    previous: Map<Seq<char>, Zone>,
    z: Zone,
) -> spec_fn(Seq<char>) -> bool {
    |q: Seq<char>| zone_allowed(z, lookup(recent, q), lookup(previous, q))
}

/// The names of the people of a list of options.
pub open spec fn option_names(person_options: Seq<(String, Vec<Zone>)>) -> Seq<Seq<char>> {
    person_options.map_values(|o: (String, Vec<Zone>)| o.0@)
}

/// The zone lists of a list of options.
pub open spec fn option_zones(person_options: Seq<(String, Vec<Zone>)>) -> Seq<Seq<Zone>> {
    person_options.map_values(|o: (String, Vec<Zone>)| o.1@)
}

/// The (name, zone) views of chart entries.
pub open spec fn entry_views(e: Seq<(String, Zone)>) -> Seq<(Seq<char>, Zone)> {
    e.map_values(|x: (String, Zone)| (x.0@, x.1))
}

/// Whether a zone has a free seat in `free`, which holds the free seats of
/// each zone by its position in `Zone::all()`; a zone past its end has none.
pub open spec fn has_free_seat(free: Seq<usize>) -> spec_fn(Zone) -> bool {
    |z: Zone| z.spec_index() < free.len() && free[z.spec_index()] > 0
}

/// The zones of `allowed` that have a free seat in `free`, in order.
pub open spec fn free_zones(allowed: Seq<Zone>, free: Seq<usize>) -> Seq<Zone> {
    allowed.filter(has_free_seat(free))
}

/// `order` lists each of the positions `0..n` once, and nothing else.
pub open spec fn is_order(order: Seq<usize>, n: nat) -> bool {
    &&& order.len() == n
    &&& order.no_duplicates()
    &&& forall|x: usize| #[trigger] order.contains(x) <==> x < n
}

/// A pass over the people at the positions of `order`, starting with the
/// free seats `free`: in turn, the person at `order[k]` (named `names[i]`,
/// with the zones `allowed[i]`) takes zone `picks[k]`, which must be one of
/// their zones that still has a free seat. The result is the (name, zone)
/// list in that order, with the free seats left; it is `None` when some
/// pick is not such a zone (as when none of a person's zones has a seat
/// left), or when there is not one pick per person.
pub open spec fn pass_state(
    names: Seq<Seq<char>>,
    allowed: Seq<Seq<Zone>>,
    order: Seq<usize>,
    picks: Seq<Zone>,
    free: Seq<usize>,
) -> Option<(Seq<(Seq<char>, Zone)>, Seq<usize>)>
    decreases order.len(),
{
    if order.len() != picks.len() {
        None
    } else if order.len() == 0 {
        Some((Seq::empty(), free))
    } else {
        match pass_state(names, allowed, order.drop_last(), picks.drop_last(), free) {
            None => None,
            Some(s) => {
                let i = order.last() as int;
                let z = picks.last();
                if free_zones(allowed[i], s.1).contains(z) {
                    Some(
                        (
                            s.0.push((names[i], z)),
                            s.1.update(z.spec_index(), (s.1[z.spec_index()] - 1) as usize),
                        ),
                    )
                } else {
                    None
                }
            },
        }
    }
}

/// Pick `k` is a fair draw: where the pass reaches the person at
/// `order[k]` and some of their zones still has a free seat, `picks[k]` is
/// one of those zones.
pub open spec fn fair_pick(
    names: Seq<Seq<char>>,
    allowed: Seq<Seq<Zone>>,
    order: Seq<usize>,
    picks: Seq<Zone>,
    free: Seq<usize>,
    k: int,
) -> bool {
    match pass_state(names, allowed, order.take(k), picks.take(k), free) {
        None => true,
        Some(s) => free_zones(allowed[order[k] as int], s.1).len() > 0 ==> free_zones(
            allowed[order[k] as int],
            s.1,
        ).contains(picks[k]),
    }
}

/// One pick per person of `order`, each a fair draw.
pub open spec fn fair_picks(
    names: Seq<Seq<char>>,
    allowed: Seq<Seq<Zone>>,
    order: Seq<usize>,
    picks: Seq<Zone>,
    free: Seq<usize>,
) -> bool {
    &&& picks.len() == order.len()
    &&& forall|k: int|
        0 <= k < order.len() ==> #[trigger] fair_pick(names, allowed, order, picks, free, k)
}

/// The zone lists of the people `names`, given the two previous charts.
pub open spec fn allowed_lists(
    recent: Map<Seq<char>, Zone>,
    previous: Map<Seq<char>, Zone>,
    names: Seq<Seq<char>>,
) -> Seq<Seq<Zone>> {
    names.map_values(|p: Seq<char>| allowed_zones_spec(lookup(recent, p), lookup(previous, p)))
}

/// `names` lists everyone named by either chart, each once, in the order
/// of strings.
pub open spec fn roster(names: Seq<Seq<char>>, recent: &SeatingChart, previous: &SeatingChart) -> bool {
    &&& strictly_sorted(names)
    &&& names.to_set() == recent@.dom() + previous@.dom()
}

/// How many of `picks` are zone `z`.
pub open spec fn pick_count(picks: Seq<Zone>, z: Zone) -> nat
    decreases picks.len(),
{
    if picks.len() == 0 {
        0
    } else {
        pick_count(picks.drop_last(), z) + if picks.last() == z {
            1nat
        } else {
            0nat
        }
    }
}

/// A pass seats everyone exactly when there is one pick per person, each
/// person's pick is one of their zones, and no zone is picked more often
/// than it has free seats. Then it lists, in order, each person of `order`
/// with their pick, and each zone is left with its free seats less the
/// number of times it was picked.
pub proof fn lemma_pass_outcome(
    names: Seq<Seq<char>>,
    allowed: Seq<Seq<Zone>>,
    order: Seq<usize>,
    picks: Seq<Zone>,
    free: Seq<usize>,
)
    requires
        free.len() == 4,
    ensures
        pass_state(names, allowed, order, picks, free) is Some <==> (picks.len() == order.len()
            && (forall|k: int|
            0 <= k < order.len() ==> allowed[order[k] as int].contains(#[trigger] picks[k])) && (
        forall|z: Zone| #[trigger] pick_count(picks, z) <= free[z.spec_index()])),
        pass_state(names, allowed, order, picks, free) matches Some(s) ==> {
            &&& s.0.len() == order.len()
            &&& forall|k: int|
                0 <= k < order.len() ==> #[trigger] s.0[k] == (names[order[k] as int], picks[k])
            &&& s.1.len() == 4
            &&& forall|z: Zone| #[trigger]
                s.1[z.spec_index()] == free[z.spec_index()] - pick_count(picks, z)
        },
    decreases order.len(),
{
    if picks.len() == order.len() && order.len() > 0 {
        let o = order.drop_last();
        let p = picks.drop_last();
        let n = order.len() - 1;
        lemma_pass_outcome(names, allowed, o, p, free);
        let z0 = picks.last();
        let i = order.last() as int;
        assert(picks[n] == z0);
        assert(order[n] == order.last());
        assert forall|z: Zone| #[trigger] pick_count(picks, z) == pick_count(p, z) + if z == z0 {
            1nat
        } else {
            0nat
        } by {}
        match pass_state(names, allowed, o, p, free) {
            Some(s) => {
                lemma_free_zone(allowed[i], s.1, z0);
                if pass_state(names, allowed, order, picks, free) is Some {
                    assert forall|k: int| 0 <= k < order.len() implies allowed[order[k] as int].contains(
                        #[trigger] picks[k],
                    ) by {
                        if k < n {
                            assert(o[k] == order[k] && p[k] == picks[k]);
                        }
                    }
                    let t = pass_state(names, allowed, order, picks, free)->0;
                    assert forall|k: int| 0 <= k < order.len() implies #[trigger] t.0[k] == (
                        names[order[k] as int],
                        picks[k],
                    ) by {
                        if k < n {
                            assert(o[k] == order[k] && p[k] == picks[k]);
                            assert(t.0[k] == s.0[k]);
                        }
                    }
                    assert forall|z: Zone| #[trigger] t.1[z.spec_index()] == free[z.spec_index()]
                        - pick_count(picks, z) by {
                        assert(s.1[z.spec_index()] == free[z.spec_index()] - pick_count(p, z));
                    }
                    assert forall|z: Zone| #[trigger] pick_count(picks, z) <= free[z.spec_index()] by {
                        assert(s.1[z.spec_index()] == free[z.spec_index()] - pick_count(p, z));
                        assert(pick_count(p, z) <= free[z.spec_index()]);
                    }
                } else {
                    if (forall|k: int|
                        0 <= k < order.len() ==> allowed[order[k] as int].contains(
                            #[trigger] picks[k],
                        )) && (forall|z: Zone| #[trigger] pick_count(picks, z) <= free[z.spec_index()]) {
                        assert(allowed[order[n] as int].contains(picks[n]));
                        assert(pick_count(picks, z0) <= free[z0.spec_index()]);
                        assert(s.1[z0.spec_index()] == free[z0.spec_index()] - pick_count(p, z0));
                        assert(false);
                    }
                }
            },
            None => {
                if (forall|k: int|
                    0 <= k < order.len() ==> allowed[order[k] as int].contains(#[trigger] picks[k]))
                    && (forall|z: Zone| #[trigger] pick_count(picks, z) <= free[z.spec_index()]) {
                    assert forall|k: int| 0 <= k < o.len() implies allowed[o[k] as int].contains(
                        #[trigger] p[k],
                    ) by {
                        assert(o[k] == order[k] && p[k] == picks[k]);
                        assert(allowed[order[k] as int].contains(picks[k]));
                    }
                    assert forall|z: Zone| #[trigger] pick_count(p, z) <= free[z.spec_index()] by {
                        assert(pick_count(picks, z) <= free[z.spec_index()]);
                    }
                    assert(false);
                }
            },
        }
    } else if order.len() == 0 && picks.len() == 0 {
        assert forall|z: Zone| #[trigger] pick_count(picks, z) <= free[z.spec_index()] by {}
    }
}

/// Extending the pass by one person and one pick.
proof fn lemma_pass_step(
    names: Seq<Seq<char>>,
    allowed: Seq<Seq<Zone>>,
    order: Seq<usize>,
    picks: Seq<Zone>,
    free: Seq<usize>,
    step: int,
    z: Zone,
)
    requires
        0 <= step < order.len(),
        picks.len() == step,
    ensures
        pass_state(names, allowed, order.take(step + 1), picks.push(z), free) == match pass_state(
            names,
            allowed,
            order.take(step),
            picks,
            free,
        ) {
            None => None,
            Some(s) => if free_zones(allowed[order[step] as int], s.1).contains(z) {
                Some(
                    (
                        s.0.push((names[order[step] as int], z)),
                        s.1.update(z.spec_index(), (s.1[z.spec_index()] - 1) as usize),
                    ),
                )
            } else {
                None
            },
        },
{
    assert(order.take(step + 1).drop_last() =~= order.take(step));
    assert(picks.push(z).drop_last() =~= picks);
    assert(order.take(step + 1).last() == order[step]);
}

/// Once the pass has failed, it stays failed.
proof fn lemma_pass_stays_failed(
    names: Seq<Seq<char>>,
    allowed: Seq<Seq<Zone>>,
    order: Seq<usize>,
    picks: Seq<Zone>,
    free: Seq<usize>,
    j: int,
    k: int,
)
    requires
        0 <= j <= k <= order.len(),
        order.len() == picks.len(),
        pass_state(names, allowed, order.take(j), picks.take(j), free) is None,
    ensures
        pass_state(names, allowed, order.take(k), picks.take(k), free) is None,
    decreases k - j,
{
    if k > j {
        lemma_pass_stays_failed(names, allowed, order, picks, free, j, k - 1);
        assert(order.take(k).drop_last() =~= order.take(k - 1));
        assert(picks.take(k).drop_last() =~= picks.take(k - 1));
    }
}

/// When the person at `order[step]` finds no zone with a free seat, the
/// picks so far, with any picks for the people after them, are fair picks
/// of a failed pass.
proof fn lemma_stuck_pass(
    names: Seq<Seq<char>>,
    allowed: Seq<Seq<Zone>>,
    order: Seq<usize>,
    picks: Seq<Zone>,
    free: Seq<usize>,
    step: int,
) -> (full: Seq<Zone>)
    requires
        0 <= step < order.len(),
        picks.len() == step,
        pass_state(names, allowed, order.take(step), picks, free) matches Some(s) && free_zones(
            allowed[order[step] as int],
            s.1,
        ).len() == 0,
        forall|k: int| 0 <= k < step ==> #[trigger] fair_pick(names, allowed, order, picks, free, k),
    ensures
        fair_picks(names, allowed, order, full, free),
        pass_state(names, allowed, order, full, free) is None,
{
    let full = picks + Seq::new((order.len() - step) as nat, |j: int| Zone::Zone3);
    assert(full.take(step) =~= picks);
    let s = pass_state(names, allowed, order.take(step), picks, free)->0;
    assert(full.take(step + 1) =~= picks.push(Zone::Zone3));
    lemma_pass_step(names, allowed, order, picks, free, step, Zone::Zone3);
    assert(!free_zones(allowed[order[step] as int], s.1).contains(Zone::Zone3));
    assert forall|k: int| 0 <= k < order.len() implies #[trigger] fair_pick(
        names,
        allowed,
        order,
        full,
        free,
        k,
    ) by {
        if k < step {
            assert(full.take(k) =~= picks.take(k));
            assert(full[k] == picks[k]);
            assert(fair_pick(names, allowed, order, picks, free, k));
        } else if k > step {
            lemma_pass_stays_failed(names, allowed, order, full, free, step + 1, k);
        }
    }
    lemma_pass_stays_failed(names, allowed, order, full, free, step + 1, order.len() as int);
    assert(order.take(order.len() as int) =~= order);
    assert(full.take(order.len() as int) =~= full);
    full
}

/// A zone is among the free zones exactly when it is allowed and has a
/// free seat.
proof fn lemma_free_zone(allowed: Seq<Zone>, free: Seq<usize>, z: Zone)
    ensures
        free_zones(allowed, free).contains(z) <==> allowed.contains(z) && (has_free_seat(free))(z),
{
    let f = has_free_seat(free);
    if allowed.filter(f).contains(z) {
        allowed.lemma_filter_contains_rev(f, z);
        let k = choose|k: int| 0 <= k < allowed.filter(f).len() && allowed.filter(f)[k] == z;
        allowed.lemma_filter_pred(f, k);
    }
    if allowed.contains(z) && f(z) {
        let i = choose|i: int| 0 <= i < allowed.len() && allowed[i] == z;
        allowed.lemma_filter_contains(f, i);
    }
}

/// How many of the people at `positions` list zone `z` in `zones`.
pub open spec fn listing_count(zones: Seq<Seq<Zone>>, positions: Seq<usize>, z: Zone) -> nat
    decreases positions.len(),
{
    if positions.len() == 0 {
        0
    } else {
        listing_count(zones, positions.drop_last(), z) + if zones[positions.last() as int].contains(
            z,
        ) {
            1nat
        } else {
            0nat
        }
    }
}

/// A prefix lists a zone no more often than the whole.
proof fn lemma_listing_prefix(zones: Seq<Seq<Zone>>, s: Seq<usize>, m: int, z: Zone)
    requires
        0 <= m <= s.len(),
    ensures
        listing_count(zones, s.take(m), z) <= listing_count(zones, s, z),
    decreases s.len(),
{
    if m < s.len() {
        assert(s.take(m) =~= s.drop_last().take(m));
        lemma_listing_prefix(zones, s.drop_last(), m, z);
    } else {
        assert(s.take(m) =~= s);
    }
}

/// Removing one position removes its contribution to the count.
proof fn lemma_listing_remove(zones: Seq<Seq<Zone>>, s: Seq<usize>, j: int, z: Zone)
    requires
        0 <= j < s.len(),
    ensures
        listing_count(zones, s, z) == listing_count(zones, s.remove(j), z) + if zones[s[j] as int].contains(
            z,
        ) {
            1nat
        } else {
            0nat
        },
    decreases s.len(),
{
    if j == s.len() - 1 {
        assert(s.remove(j) =~= s.drop_last());
    } else {
        assert(s.remove(j).drop_last() =~= s.drop_last().remove(j));
        assert(s.remove(j).last() == s.last());
        lemma_listing_remove(zones, s.drop_last(), j, z);
    }
}

/// Distinct positions below `n` list a zone no more often than all the
/// positions below `n` do.
proof fn lemma_listing_injective(zones: Seq<Seq<Zone>>, s: Seq<usize>, n: nat, z: Zone)
    requires
        s.no_duplicates(),
        forall|k: int| 0 <= k < s.len() ==> #[trigger] s[k] < n,
    ensures
        listing_count(zones, s, z) <= listing_count(zones, all_positions(n), z),
    decreases n,
{
    if n == 0 {
        if s.len() > 0 {
            assert(s[0] < n);
        }
    } else {
        let m = (n - 1) as usize;
        assert(all_positions(n).drop_last() =~= all_positions((n - 1) as nat));
        assert(all_positions(n).last() == m);
        if s.contains(m) {
            let j = choose|j: int| 0 <= j < s.len() && s[j] == m;
            let t = s.remove(j);
            lemma_listing_remove(zones, s, j, z);
            assert forall|k: int| 0 <= k < t.len() implies #[trigger] t[k] < (n - 1) as nat by {
                if k < j {
                    assert(t[k] == s[k]);
                    assert(s[k] != s[j]);
                } else {
                    assert(t[k] == s[k + 1]);
                    assert(s[k + 1] != s[j]);
                }
            }
            assert(t.no_duplicates()) by {
                assert forall|a: int, b: int| 0 <= a < t.len() && 0 <= b < t.len() && a != b implies t[a] != t[b] by {
                    let sa = if a < j { a } else { a + 1 };
                    let sb = if b < j { b } else { b + 1 };
                    assert(t[a] == s[sa] && t[b] == s[sb]);
                }
            }
            lemma_listing_injective(zones, t, (n - 1) as nat, z);
        } else {
            assert forall|k: int| 0 <= k < s.len() implies #[trigger] s[k] < (n - 1) as nat by {
                assert(s[k] != m);
            }
            lemma_listing_injective(zones, s, (n - 1) as nat, z);
        }
    }
}

/// Counting the first `m` people who list `z` counts the set of their
/// names that satisfy `f`, where listing `z` is satisfying `f`.
proof fn lemma_listing_counts_people(
    oz: Seq<Seq<Zone>>,
    names: Seq<Seq<char>>,
    f: spec_fn(Seq<char>) -> bool,
    z: Zone,
    m: nat,
)
    requires
        m <= names.len(),
        names.len() <= usize::MAX,
        names.no_duplicates(),
        oz.len() == names.len(),
        forall|j: int| 0 <= j < names.len() ==> oz[j].contains(z) == f(names[j]),
    ensures
        listing_count(oz, all_positions(m), z) == names.take(m as int).to_set().filter(f).len(),
    decreases m,
{
    broadcast use vstd::seq_lib::seq_to_set_is_finite;

    if m == 0 {
        assert(names.take(0).to_set().filter(f) =~= Set::<Seq<char>>::empty());
    } else {
        let k = (m - 1) as nat;
        lemma_listing_counts_people(oz, names, f, z, k);
        assert(all_positions(m).drop_last() =~= all_positions(k));
        assert(all_positions(m).last() == k as usize);
        let a = names.take(k as int);
        let b = names.take(m as int);
        assert(b =~= a.push(names[k as int]));
        a.lemma_push_to_set_commute(names[k as int]);
        assert(!a.to_set().contains(names[k as int])) by {
            if a.to_set().contains(names[k as int]) {
                let j = choose|j: int| 0 <= j < a.len() && a[j] == names[k as int];
                assert(names[j] == names[k as int]);
            }
        }
        assert(a.to_set().filter(f).finite());
        if f(names[k as int]) {
            assert(b.to_set().filter(f) =~= a.to_set().filter(f).insert(names[k as int]));
        } else {
            assert(b.to_set().filter(f) =~= a.to_set().filter(f));
        }
    }
}

/// A zone is among the allowed zones exactly when the rule allows it.
proof fn lemma_allowed_contains(prev1: Option<Zone>, prev2: Option<Zone>, z: Zone)
    ensures
        allowed_zones_spec(prev1, prev2).contains(z) == zone_allowed(z, prev1, prev2),
{
    let f = |w: Zone| zone_allowed(w, prev1, prev2);
    let c = candidate_order();
    let q: int = match z {
        Zone::Zone3 => 0,
        Zone::Zone1 => 1,
        Zone::Zone2a => 2,
        Zone::Zone2b => 3,
    };
    assert(c[q] == z);
    if f(z) {
        c.lemma_filter_contains(f, q);
    }
    if c.filter(f).contains(z) {
        let k = choose|k: int| 0 <= k < c.filter(f).len() && c.filter(f)[k] == z;
        c.lemma_filter_pred(f, k);
    }
}

/// The number of random assignments tried before giving up.
pub const MAX_ATTEMPTS: usize = 200;

/// Places people into zones of fixed capacity.
#[derive(Debug, Clone, Copy)]
pub struct Generator {
    zone1: usize,
    zone2a: usize,
    zone2b: usize,
    zone3: usize,
}

impl Generator {
    /// The number of seats in zone `z`.
    pub closed spec fn capacity(&self, z: Zone) -> nat {
        match z {
            Zone::Zone1 => self.zone1 as nat,
            Zone::Zone2a => self.zone2a as nat,
            Zone::Zone2b => self.zone2b as nat,
            Zone::Zone3 => self.zone3 as nat,
        }
    }

    /// The number of seats in all zones together.
    pub open spec fn total_capacity(&self) -> nat {
        self.capacity(Zone::Zone1) + self.capacity(Zone::Zone2a) + self.capacity(Zone::Zone2b)
            + self.capacity(Zone::Zone3)
    }

    /// `chart` seats exactly the people of the two previous charts, each in
    /// a zone that the seating rule allows them, and fills every zone to
    /// its capacity.
    pub open spec fn is_valid_chart(
        &self,
        chart: &SeatingChart,
        recent: &SeatingChart,
        previous: &SeatingChart,
    ) -> bool {
        &&& chart@.dom() == recent@.dom() + previous@.dom()
        &&& forall|p: Seq<char>| #[trigger]
            chart@.dom().contains(p) ==> zone_allowed(
                chart@[p],
                lookup(recent@, p),
                lookup(previous@, p),
            )
        &&& forall|z: Zone| #[trigger] chart.count_in(z) == self.capacity(z)
    }

    /// Entry `k` of `chart` seats one of `person_options` in a zone listed
    /// for them.
    pub open spec fn entry_listed(
        chart: &SeatingChart,
        person_options: &Vec<(String, Vec<Zone>)>,
        k: int,
    ) -> bool {
        exists|i: int|
            #![trigger person_options@[i]]
            0 <= i < person_options@.len() && chart.entries()[k].0@ == person_options@[i].0@
                && person_options@[i].1@.contains(chart.entries()[k].1)
    }

    /// Person `i` of `person_options` has an entry in `chart`.
    pub open spec fn person_seated(
        chart: &SeatingChart,
        person_options: &Vec<(String, Vec<Zone>)>,
        i: int,
    ) -> bool {
        exists|k: int|
            #![trigger chart.entries()[k]]
            0 <= k < chart.entries().len() && chart.entries()[k].0@ == person_options@[i].0@
    }

    /// `chart` seats each person of `person_options` once, in one of the
    /// zones listed for them, and no zone beyond its capacity.
    pub open spec fn seats_everyone(
        &self,
        chart: &SeatingChart,
        person_options: &Vec<(String, Vec<Zone>)>,
    ) -> bool {
        &&& chart.entries().len() == person_options@.len()
        &&& names_distinct(chart.entries())
        &&& forall|k: int|
            0 <= k < chart.entries().len() ==> #[trigger] Self::entry_listed(
                chart,
                person_options,
                k,
            )
        &&& forall|i: int|
            0 <= i < person_options@.len() ==> #[trigger] Self::person_seated(
                chart,
                person_options,
                i,
            )
        &&& forall|z: Zone| #[trigger] chart.count_in(z) <= self.capacity(z)
    }

    /// A generator with the given zone capacities. As when a map is built
    /// from pairs, a later pair for a zone replaces an earlier one; a zone
    /// without a pair has no seats.
    pub fn new(capacities: Vec<(Zone, usize)>) -> (r: Self)
        ensures
            forall|z: Zone| #[trigger] r.capacity(z) == last_capacity(capacities@, z),
    {
        let mut g = Generator { zone1: 0, zone2a: 0, zone2b: 0, zone3: 0 };
        let mut i: usize = 0;
        while i < capacities.len()
            invariant
                i <= capacities@.len(),
                forall|z: Zone| #[trigger]
                    g.capacity(z) == last_capacity(capacities@.take(i as int), z),
            decreases capacities@.len() - i,
        {
            let (z, c) = capacities[i];
            let ghost before = g;
            match z {
                Zone::Zone1 => g.zone1 = c,
                Zone::Zone2a => g.zone2a = c,
                Zone::Zone2b => g.zone2b = c,
                Zone::Zone3 => g.zone3 = c,
            }
            let ghost t = capacities@.take(i + 1);
            assert(t.drop_last() =~= capacities@.take(i as int));
            assert(t.last() == (z, c));
            assert forall|w: Zone| #[trigger] g.capacity(w) == last_capacity(t, w) by {
                if w != z {
                    assert(last_capacity(t, w) == last_capacity(t.drop_last(), w));
                    assert(g.capacity(w) == before.capacity(w));
                } else {
                    assert(last_capacity(t, w) == c);
                }
            }
            i = i + 1;
        }
        assert(capacities@.take(capacities@.len() as int) =~= capacities@);
        g
    }

    /// The number of seats in zone `z`.
    pub fn capacity_of(&self, z: Zone) -> (r: usize)
        ensures
            r == self.capacity(z),
    {
        match z {
            Zone::Zone1 => self.zone1,
            Zone::Zone2a => self.zone2a,
            Zone::Zone2b => self.zone2b,
            Zone::Zone3 => self.zone3,
        }
    }

    /// The number of seats in all zones together.
    pub fn total_capacity_of(&self) -> (r: u128)
        ensures
            r == self.total_capacity(),
    {
        self.zone1 as u128 + self.zone2a as u128 + self.zone2b as u128 + self.zone3 as u128
    }

    /// The zones a person may take next, given their zone in the most
    /// recent chart (`prev1`) and in the one before (`prev2`): Zone 3
    /// first, then Zone 1, 2a and 2b, each where the seating rule allows it.
    pub fn allowed_zones(&self, prev1: Option<Zone>, prev2: Option<Zone>) -> (r: Vec<Zone>)
        ensures
            r@ == allowed_zones_spec(prev1, prev2),
            r@.contains(Zone::Zone3),
    {
        let mut allowed = vec![Zone::Zone3];
        let ghost f = |z: Zone| zone_allowed(z, prev1, prev2);
        proof {
            reveal_with_fuel(Seq::filter, 5);
        }
        let prev1_zone = match prev1 {
            Some(z) => z,
            None => {
                allowed.push(Zone::Zone1);
                allowed.push(Zone::Zone2a);
                allowed.push(Zone::Zone2b);
                assert(allowed@ =~= candidate_order().filter(f));
                assert(allowed@[0] == Zone::Zone3);
                return allowed;
            },
        };
        if prev1_zone != Zone::Zone1 {
            allowed.push(Zone::Zone1);
        }
        if prev1_zone != Zone::Zone2a {
            allowed.push(Zone::Zone2a);
        }
        if prev1_zone != Zone::Zone2b {
            allowed.push(Zone::Zone2b);
        }
        if let Some(prev2_zone) = prev2 {
            let prev1_in_2 = prev1_zone.in_zone2();
            let prev2_in_2 = prev2_zone.in_zone2();
            if prev1_in_2 && prev2_in_2 {
                let mut kept: Vec<Zone> = Vec::new();
                let ghost keep = |z: Zone| !z.spec_in_zone2();
                let mut j: usize = 0;
                while j < allowed.len()
                    invariant
                        j <= allowed@.len(),
                        keep == (|z: Zone| !z.spec_in_zone2()),
                        kept@ =~= allowed@.take(j as int).filter(keep),
                    decreases allowed@.len() - j,
                {
                    let z = allowed[j];
                    if !z.in_zone2() {
                        kept.push(z);
                    }
                    let ghost t = allowed@.take(j + 1);
                    assert(t.drop_last() =~= allowed@.take(j as int));
                    assert(t.last() == z);
                    proof {
                        reveal_with_fuel(Seq::filter, 2);
                        assert(t.filter(keep) == (if keep(z) {
                            t.drop_last().filter(keep).push(z)
                        } else {
                            t.drop_last().filter(keep)
                        }));
                    }
                    j = j + 1;
                }
                assert(allowed@.take(allowed@.len() as int) =~= allowed@);
                allowed = kept;
            }
        }
        assert(allowed@ =~= candidate_order().filter(f));
        assert(allowed@[0] == Zone::Zone3);
        allowed
    }

    /// The zones of `allowed` that still have a free seat, in order;
    /// `remaining` holds the free seats of each zone by its position in
    /// `Zone::all()`, and a zone past its end has none.
    pub fn available_zones(allowed: &Vec<Zone>, remaining: &Vec<usize>) -> (r: Vec<Zone>)
        ensures
            r@ == free_zones(allowed@, remaining@),
    {
        let ghost f = has_free_seat(remaining@);
        let mut available: Vec<Zone> = Vec::new();
        let mut j: usize = 0;
        while j < allowed.len()
            invariant
                j <= allowed@.len(),
                f == has_free_seat(remaining@),
                available@ == allowed@.take(j as int).filter(f),
            decreases allowed@.len() - j,
        {
            let z = allowed[j];
            let i = z.index();
            if i < remaining.len() && remaining[i] > 0 {
                available.push(z);
            }
            let ghost t = allowed@.take(j + 1);
            proof {
                assert(t.drop_last() =~= allowed@.take(j as int));
                assert(t.last() == z);
                reveal_with_fuel(Seq::filter, 2);
                assert(t.filter(f) == (if f(z) {
                    t.drop_last().filter(f).push(z)
                } else {
                    t.drop_last().filter(f)
                }));
            }
            j = j + 1;
        }
        assert(allowed@.take(allowed@.len() as int) =~= allowed@);
        available
    }

    /// Person `i` of `person_options` lists a zone with at least as many
    /// seats as there are people who list it.
    pub open spec fn has_room_for(&self, person_options: &Vec<(String, Vec<Zone>)>, i: int) -> bool {
        exists|z: Zone|
            #[trigger] person_options@[i].1@.contains(z) && self.capacity(z) >= listing_count(
                option_zones(person_options@),
                all_positions(person_options@.len()),
                z,
            )
    }

    /// Every person lists a zone with at least as many seats as there are
    /// people who list it, so that a seat of it is left for them whoever
    /// goes first.
    pub open spec fn room_for_everyone(&self, person_options: &Vec<(String, Vec<Zone>)>) -> bool {
        forall|i: int|
            0 <= i < person_options@.len() ==> #[trigger] self.has_room_for(person_options, i)
    }

    /// Person `i` of `person_options` lists only zones without seats.
    pub open spec fn seatless(&self, person_options: &Vec<(String, Vec<Zone>)>, i: int) -> bool {
        forall|z: Zone| #[trigger] person_options@[i].1@.contains(z) ==> self.capacity(z) == 0
    }

    /// Some person lists only zones without seats.
    pub open spec fn someone_seatless(&self, person_options: &Vec<(String, Vec<Zone>)>) -> bool {
        exists|i: int| 0 <= i < person_options@.len() && #[trigger] self.seatless(person_options, i)
    }

    /// The free seats of each zone, by its position in `Zone::all()`, before
    /// anybody is seated.
    pub open spec fn free_seats(&self) -> Seq<usize> {
        seq![
            self.capacity(Zone::Zone1) as usize,
            self.capacity(Zone::Zone2a) as usize,
            self.capacity(Zone::Zone2b) as usize,
            self.capacity(Zone::Zone3) as usize,
        ]
    }

    /// `r` is the chart that the pass result `p` describes.
    pub open spec fn outcome_is(
        r: Option<SeatingChart>,
        p: Option<(Seq<(Seq<char>, Zone)>, Seq<usize>)>,
    ) -> bool {
        match p {
            None => r is None,
            Some(s) => r matches Some(c) && entry_views(c.entries()) == s.0,
        }
    }

    /// `r` is what the pass gives for one draw: `order` puts the people of
    /// `person_options` in some order, and `picks` is a fair pick for each.
    pub open spec fn drawn_outcome(
        &self,
        person_options: &Vec<(String, Vec<Zone>)>,
        order: Seq<usize>,
        picks: Seq<Zone>,
        r: Option<SeatingChart>,
    ) -> bool {
        let names = option_names(person_options@);
        let zones = option_zones(person_options@);
        &&& is_order(order, person_options@.len())
        &&& fair_picks(names, zones, order, picks, self.free_seats())
        &&& Self::outcome_is(r, pass_state(names, zones, order, picks, self.free_seats()))
    }

    /// One random attempt at seating everyone of `person_options`, each
    /// given with the zones they may take: the people are put in a random
    /// order; then each person in turn takes a zone drawn at random from
    /// those of their zones that still have a free seat. When some person
    /// finds none, the attempt fails. A chart that comes back seats each
    /// person once, in one of their allowed zones, and no zone beyond its
    /// capacity. Whatever the random draws, the attempt succeeds when every
    /// person lists a zone with at least as many seats as there are people
    /// who list it, and fails when some person lists only zones without
    /// seats.
    fn try_assign(&self, person_options: &Vec<(String, Vec<Zone>)>) -> (r: Option<SeatingChart>)
        requires
            forall|i: int, j: int|
                0 <= i < j < person_options@.len() ==> (#[trigger] person_options@[i]).0@ != (
                #[trigger] person_options@[j]).0@,
        ensures
            exists|order: Seq<usize>, picks: Seq<Zone>| #[trigger]
                self.drawn_outcome(person_options, order, picks, r),
            r matches Some(chart) ==> self.seats_everyone(&chart, person_options),
            self.room_for_everyone(person_options) ==> r is Some,
            self.someone_seatless(person_options) ==> r is None,
    {
        let ghost names = option_names(person_options@);
        let ghost zones = option_zones(person_options@);
        let ghost free = self.free_seats();
        let mut rng = thread_rng();
        let n = person_options.len();
        let order = shuffled_positions(n, &mut rng);
        let mut remaining: Vec<usize> = vec![self.zone1, self.zone2a, self.zone2b, self.zone3];
        let mut result: Vec<(String, Zone)> = Vec::new();
        let ghost mut picks: Seq<Zone> = Seq::empty();
        proof {
            assert(remaining@ =~= free);
            assert(order@.take(0) =~= Seq::<usize>::empty());
            assert(entry_views(result@) =~= Seq::<(Seq<char>, Zone)>::empty());
            assert forall|z: Zone| #[trigger]
                zone_count(result@, z) + remaining@[z.spec_index()] == self.capacity(z) by {
                match z {
                    Zone::Zone1 => {},
                    Zone::Zone2a => {},
                    Zone::Zone2b => {},
                    Zone::Zone3 => {},
                }
            }
        }
        let mut step: usize = 0;
        while step < n
            invariant
                n == person_options@.len(),
                names == option_names(person_options@),
                zones == option_zones(person_options@),
                free == self.free_seats(),
                is_order(order@, n as nat),
                forall|k: int| 0 <= k < n ==> #[trigger] order@[k] < n,
                forall|a: int, b: int|
                    0 <= a < b < person_options@.len() ==> (#[trigger] person_options@[a]).0@ != (
                    #[trigger] person_options@[b]).0@,
                step <= n,
                result@.len() == step,
                picks.len() == step,
                remaining@.len() == 4,
                pass_state(names, zones, order@.take(step as int), picks, free) == Some(
                    (entry_views(result@), remaining@),
                ),
                forall|k: int|
                    0 <= k < step ==> #[trigger] fair_pick(names, zones, order@, picks, free, k),
                forall|k: int|
                    0 <= k < step ==> (#[trigger] result@[k]).0@ == names[order@[k] as int]
                        && zones[order@[k] as int].contains(result@[k].1) && self.capacity(
                        result@[k].1,
                    ) > 0,
                forall|z: Zone|
                    #[trigger] zone_count(result@, z) + remaining@[z.spec_index()] == self.capacity(z),
                forall|z: Zone|
                    #[trigger] zone_count(result@, z) <= listing_count(
                        zones,
                        order@.take(step as int),
                        z,
                    ),
            decreases n - step,
        {
            let idx = order[step];
            let person = &person_options[idx];
            let available = Self::available_zones(&person.1, &remaining);
            proof {
                assert(zones[idx as int] == person_options@[idx as int].1@);
                assert(names[idx as int] == person_options@[idx as int].0@);
                let t1 = order@.take(step + 1);
                assert(t1.drop_last() =~= order@.take(step as int));
                assert(t1.last() == idx);
            }
            if available.len() == 0 {
                proof {
                    let full = lemma_stuck_pass(names, zones, order@, picks, free, step as int);
                    assert(self.drawn_outcome(person_options, order@, full, None));
                    if self.room_for_everyone(person_options) {
                        assert(self.has_room_for(person_options, idx as int));
                        let z = choose|z: Zone|
                            #[trigger] person_options@[idx as int].1@.contains(z) && self.capacity(z)
                                >= listing_count(zones, all_positions(n as nat), z);
                        lemma_listing_prefix(zones, order@, step + 1, z);
                        lemma_listing_injective(zones, order@, n as nat, z);
                        assert(zone_count(result@, z) + 1 <= self.capacity(z));
                        lemma_free_zone(zones[idx as int], remaining@, z);
                    }
                }
                return None;
            }
            let chosen = pick_one(&available, &mut rng).unwrap();
            proof {
                lemma_free_zone(zones[idx as int], remaining@, chosen);
            }
            let ci = chosen.index();
            let left = remaining[ci] - 1;
            let ghost rem_before = remaining@;
            let ghost before = result@;
            let ghost picks_before = picks;
            remaining.set(ci, left);
            result.push((person.0.clone(), chosen));
            proof {
                picks = picks.push(chosen);
                lemma_pass_step(names, zones, order@, picks_before, free, step as int, chosen);
                assert(entry_views(result@) =~= entry_views(before).push(
                    (names[idx as int], chosen),
                ));
                assert(result@.drop_last() =~= before);
                assert(order@.take(step + 1).drop_last() =~= order@.take(step as int));
                assert forall|k: int| 0 <= k < step + 1 implies #[trigger] fair_pick(
                    names,
                    zones,
                    order@,
                    picks,
                    free,
                    k,
                ) by {
                    assert(picks.take(k) =~= picks_before.take(k));
                    if k < step {
                        assert(picks[k] == picks_before[k]);
                        assert(fair_pick(names, zones, order@, picks_before, free, k));
                    } else {
                        assert(picks_before.take(k) =~= picks_before);
                    }
                }
                assert(zone_count(before, chosen) + rem_before[chosen.spec_index()]
                    == self.capacity(chosen));
                assert forall|z: Zone| #[trigger]
                    zone_count(result@, z) + remaining@[z.spec_index()] == self.capacity(z) by {
                    assert(zone_count(before, z) + rem_before[z.spec_index()] == self.capacity(z));
                }
                assert forall|z: Zone| #[trigger] zone_count(result@, z) <= listing_count(
                    zones,
                    order@.take(step + 1),
                    z,
                ) by {
                    assert(zone_count(before, z) <= listing_count(zones, order@.take(step as int), z));
                }
                assert forall|k: int| 0 <= k < step + 1 implies (#[trigger] result@[k]).0@
                    == names[order@[k] as int] && zones[order@[k] as int].contains(result@[k].1)
                    && self.capacity(result@[k].1) > 0 by {
                    if k < step {
                        assert(result@[k] == before[k]);
                    }
                }
            }
            step = step + 1;
        }
        proof {
            assert(order@.take(n as int) =~= order@);
            assert forall|a: int, b: int| 0 <= a < b < result@.len() implies (
            #[trigger] result@[a]).0@ != (#[trigger] result@[b]).0@ by {
                let ia = order@[a] as int;
                let ib = order@[b] as int;
                assert(ia != ib);
                assert(names[ia] == person_options@[ia].0@);
                assert(names[ib] == person_options@[ib].0@);
                if ia < ib {
                    assert(person_options@[ia].0@ != person_options@[ib].0@);
                } else {
                    assert(person_options@[ib].0@ != person_options@[ia].0@);
                }
            }
        }
        let ghost entries = result@;
        let chart = SeatingChart::from_distinct(result);
        proof {
            assert(chart.entries() == entries);
            assert(self.drawn_outcome(person_options, order@, picks, Some(chart)));
            assert forall|z: Zone| #[trigger] chart.count_in(z) <= self.capacity(z) by {
                assert(zone_count(entries, z) + remaining@[z.spec_index()] == self.capacity(z));
            }
            let e = chart.entries();
            assert forall|k: int| 0 <= k < e.len() implies #[trigger] Self::entry_listed(
                &chart,
                person_options,
                k,
            ) by {
                let i = order@[k] as int;
                assert(zones[i] == person_options@[i].1@);
                assert(names[i] == person_options@[i].0@);
                assert(person_options@[i].1@.contains(e[k].1));
            }
            assert forall|i: int| 0 <= i < person_options@.len() implies #[trigger] Self::person_seated(
                &chart,
                person_options,
                i,
            ) by {
                assert(order@.contains(i as usize));
                let k = choose|k: int| 0 <= k < order@.len() && order@[k] == i as usize;
                assert(names[i] == person_options@[i].0@);
                assert(e[k].0@ == person_options@[i].0@);
            }
            assert(self.seats_everyone(&chart, person_options));
            if self.someone_seatless(person_options) {
                let i = choose|i: int|
                    0 <= i < person_options@.len() && #[trigger] self.seatless(person_options, i);
                assert(order@.contains(i as usize));
                let k = choose|k: int| 0 <= k < order@.len() && order@[k] == i as usize;
                assert(zones[i] == person_options@[i].1@);
                assert(person_options@[i].1@.contains(e[k].1));
            }
        }
        Some(chart)
    }

    /// Everyone named by either chart, each once, in the order of strings.
    fn all_people(recent: &SeatingChart, previous: &SeatingChart) -> (r: Vec<String>)
        ensures
            strictly_sorted(views(r@)),
            views(r@).to_set() == recent@.dom() + previous@.dom(),
    {
        let mut people: Vec<String> = Vec::new();
        let a = recent.assignments();
        let b = previous.assignments();
        proof {
            lemma_pairs_map(a@);
            lemma_pairs_map(b@);
        }
        let mut i: usize = 0;
        while i < a.len()
            invariant
                i <= a@.len(),
                strictly_sorted(views(people@)),
                forall|x: Seq<char>|
                    views(people@).to_set().contains(x) <==> exists|j: int|
                        0 <= j < i && (#[trigger] a@[j]).0@ == x,
            decreases a@.len() - i,
        {
            let ghost before = views(people@).to_set();
            insert_sorted(&mut people, &a[i].0);
            proof {
                assert forall|x: Seq<char>| (exists|j: int| 0 <= j < i + 1 && (#[trigger] a@[j]).0@ == x)
                    implies views(people@).to_set().contains(x) by {
                    let j = choose|j: int| 0 <= j < i + 1 && (#[trigger] a@[j]).0@ == x;
                    if j < i {
                        assert(before.contains(x));
                    }
                }
            }
            i = i + 1;
        }
        let mut i: usize = 0;
        while i < b.len()
            invariant
                i <= b@.len(),
                strictly_sorted(views(people@)),
                forall|x: Seq<char>|
                    views(people@).to_set().contains(x) <==> (exists|j: int|
                        0 <= j < a@.len() && (#[trigger] a@[j]).0@ == x) || (exists|j: int|
                        0 <= j < i && (#[trigger] b@[j]).0@ == x),
            decreases b@.len() - i,
        {
            let ghost before = views(people@).to_set();
            insert_sorted(&mut people, &b[i].0);
            proof {
                assert forall|x: Seq<char>| (exists|j: int| 0 <= j < i + 1 && (#[trigger] b@[j]).0@ == x)
                    implies views(people@).to_set().contains(x) by {
                    let j = choose|j: int| 0 <= j < i + 1 && (#[trigger] b@[j]).0@ == x;
                    if j < i {
                        assert(before.contains(x));
                    }
                }
            }
            i = i + 1;
        }
        assert(views(people@).to_set() =~= recent@.dom() + previous@.dom());
        people
    }

    /// A chart that seats everyone of the options built from the two
    /// previous charts, when people and seats are equally many, is valid.
    proof fn lemma_chart_valid(
        &self,
        chart: &SeatingChart,
        person_options: &Vec<(String, Vec<Zone>)>,
        people: Seq<Seq<char>>,
        recent: &SeatingChart,
        previous: &SeatingChart,
    )
        requires
            self.seats_everyone(chart, person_options),
            people.len() == person_options@.len(),
            people.len() == self.total_capacity(),
            people.to_set() == recent@.dom() + previous@.dom(),
            forall|i: int|
                0 <= i < people.len() ==> (#[trigger] person_options@[i]).0@ == people[i]
                    && person_options@[i].1@ == allowed_zones_spec(
                    lookup(recent@, people[i]),
                    lookup(previous@, people[i]),
                ),
        ensures
            self.is_valid_chart(chart, recent, previous),
    {
        let e = chart.entries();
        lemma_pairs_map(e);
        assert forall|p: Seq<char>| chart@.dom().contains(p) <==> people.to_set().contains(p) by {
            if chart@.dom().contains(p) {
                let k = choose|k: int| 0 <= k < e.len() && e[k].0@ == p;
                assert(Self::entry_listed(chart, person_options, k));
                let i = choose|i: int|
                    #![trigger person_options@[i]]
                    0 <= i < person_options@.len() && e[k].0@ == person_options@[i].0@
                        && person_options@[i].1@.contains(e[k].1);
                assert(people[i] == p);
            }
            if people.to_set().contains(p) {
                let i = choose|i: int| 0 <= i < people.len() && people[i] == p;
                assert(Self::person_seated(chart, person_options, i));
                let k = choose|k: int|
                    #![trigger e[k]]
                    0 <= k < e.len() && e[k].0@ == person_options@[i].0@;
                assert(chart@.dom().contains(e[k].0@));
            }
        }
        assert(chart@.dom() =~= recent@.dom() + previous@.dom());
        assert forall|p: Seq<char>| #[trigger] chart@.dom().contains(p) implies zone_allowed(
            chart@[p],
            lookup(recent@, p),
            lookup(previous@, p),
        ) by {
            let k = choose|k: int| 0 <= k < e.len() && e[k].0@ == p;
            assert(Self::entry_listed(chart, person_options, k));
            let i = choose|i: int|
                #![trigger person_options@[i]]
                0 <= i < person_options@.len() && e[k].0@ == person_options@[i].0@
                    && person_options@[i].1@.contains(e[k].1);
            let f = |z: Zone| zone_allowed(z, lookup(recent@, p), lookup(previous@, p));
            let allowed = candidate_order().filter(f);
            assert(person_options@[i].1@ == allowed);
            let q = choose|q: int| 0 <= q < allowed.len() && allowed[q] == e[k].1;
            candidate_order().lemma_filter_pred(f, q);
            assert(chart@[p] == e[k].1);
        }
        lemma_zone_counts_sum(e);
        assert(chart.count_in(Zone::Zone1) <= self.capacity(Zone::Zone1));
        assert(chart.count_in(Zone::Zone2a) <= self.capacity(Zone::Zone2a));
        assert(chart.count_in(Zone::Zone2b) <= self.capacity(Zone::Zone2b));
        assert(chart.count_in(Zone::Zone3) <= self.capacity(Zone::Zone3));
        assert forall|z: Zone| #[trigger] chart.count_in(z) == self.capacity(z) by {
            match z {
                Zone::Zone1 => {},
                Zone::Zone2a => {},
                Zone::Zone2b => {},
                Zone::Zone3 => {},
            }
        }
    }

    /// Person `p` may take some zone with at least as many seats as there
    /// are people of either chart who may take it.
    pub open spec fn roomy_person(
        &self,
        recent: &SeatingChart,
        previous: &SeatingChart,
        p: Seq<char>,
    ) -> bool {
        exists|z: Zone|
            #[trigger] zone_allowed(z, lookup(recent@, p), lookup(previous@, p)) && self.capacity(z)
                >= (recent@.dom() + previous@.dom()).filter(may_take(recent@, previous@, z)).len()
    }

    /// Every zone that person `p` may take has no seats.
    pub open spec fn seatless_person(
        &self,
        recent: &SeatingChart,
        previous: &SeatingChart,
        p: Seq<char>,
    ) -> bool {
        forall|z: Zone| #[trigger]
            zone_allowed(z, lookup(recent@, p), lookup(previous@, p)) ==> self.capacity(z) == 0
    }

    /// Everyone named by either chart may take some zone with at least as
    /// many seats as there are people who may take it, so that a seat of it
    /// is left for them whoever goes first.
    pub open spec fn room_for_all_people(&self, recent: &SeatingChart, previous: &SeatingChart) -> bool {
        forall|p: Seq<char>|
            (recent@.dom() + previous@.dom()).contains(p) ==> #[trigger] self.roomy_person(
                recent,
                previous,
                p,
            )
    }

    /// Somebody named by either chart may only take zones without seats.
    pub open spec fn someone_without_seats(&self, recent: &SeatingChart, previous: &SeatingChart) -> bool {
        exists|p: Seq<char>|
            (recent@.dom() + previous@.dom()).contains(p) && #[trigger] self.seatless_person(
                recent,
                previous,
                p,
            )
    }

    /// The options built from the two charts have room for everyone, or a
    /// seatless person, exactly where the people of the charts do.
    proof fn lemma_options_room(
        &self,
        person_options: &Vec<(String, Vec<Zone>)>,
        names: Seq<Seq<char>>,
        recent: &SeatingChart,
        previous: &SeatingChart,
    )
        requires
            names.no_duplicates(),
            names.len() <= usize::MAX,
            names.len() == person_options@.len(),
            names.len() == (recent@.dom() + previous@.dom()).len(),
            names.to_set() == recent@.dom() + previous@.dom(),
            forall|j: int|
                0 <= j < names.len() ==> (#[trigger] person_options@[j]).0@ == names[j]
                    && person_options@[j].1@ == allowed_zones_spec(
                    lookup(recent@, names[j]),
                    lookup(previous@, names[j]),
                ),
        ensures
            self.room_for_all_people(recent, previous) ==> self.room_for_everyone(person_options),
            self.someone_without_seats(recent, previous) ==> self.someone_seatless(person_options),
    {
        if self.room_for_all_people(recent, previous) {
            assert forall|i: int| 0 <= i < person_options@.len() implies #[trigger] self.has_room_for(
                person_options,
                i,
            ) by {
                let p = names[i];
                assert(names.to_set().contains(p));
                assert(self.roomy_person(recent, previous, p));
                let f_p = |z: Zone| zone_allowed(z, lookup(recent@, p), lookup(previous@, p));
                let z = choose|z: Zone|
                    #[trigger] zone_allowed(z, lookup(recent@, p), lookup(previous@, p))
                        && self.capacity(z) >= (recent@.dom() + previous@.dom()).filter(
                        may_take(recent@, previous@, z),
                    ).len();
                lemma_allowed_contains(lookup(recent@, p), lookup(previous@, p), z);
                assert(person_options@[i].1@.contains(z));
                let oz = option_zones(person_options@);
                assert forall|j: int| 0 <= j < names.len() implies oz[j].contains(z) == (may_take(
                    recent@,
                    previous@,
                    z,
                ))(names[j]) by {
                    assert(oz[j] == person_options@[j].1@);
                    lemma_allowed_contains(lookup(recent@, names[j]), lookup(previous@, names[j]), z);
                }
                lemma_listing_counts_people(oz, names, may_take(recent@, previous@, z), z, names.len());
                assert(names.take(names.len() as int) =~= names);
            }
        }
        if self.someone_without_seats(recent, previous) {
            let p = choose|p: Seq<char>|
                (recent@.dom() + previous@.dom()).contains(p) && #[trigger] self.seatless_person(
                    recent,
                    previous,
                    p,
                );
            assert(names.to_set().contains(p));
            let i = choose|i: int| 0 <= i < names.len() && names[i] == p;
            assert forall|z: Zone| #[trigger] person_options@[i].1@.contains(z) implies self.capacity(
                z,
            ) == 0 by {
                lemma_allowed_contains(lookup(recent@, p), lookup(previous@, p), z);
            }
            assert(self.seatless(person_options, i));
        }
    }

    /// A random draw for the people of the two charts: `names` lists them,
    /// `order` puts them in some order, and `picks` holds a fair pick of a
    /// zone for each.
    pub open spec fn fair_draw(
        &self,
        recent: &SeatingChart,
        previous: &SeatingChart,
        names: Seq<Seq<char>>,
        order: Seq<usize>,
        picks: Seq<Zone>,
    ) -> bool {
        &&& roster(names, recent, previous)
        &&& is_order(order, names.len())
        &&& fair_picks(
            names,
            allowed_lists(recent@, previous@, names),
            order,
            picks,
            self.free_seats(),
        )
    }

    /// What the pass gives for a draw.
    pub open spec fn draw_result(
        &self,
        recent: &SeatingChart,
        previous: &SeatingChart,
        names: Seq<Seq<char>>,
        order: Seq<usize>,
        picks: Seq<Zone>,
    ) -> Option<(Seq<(Seq<char>, Zone)>, Seq<usize>)> {
        pass_state(names, allowed_lists(recent@, previous@, names), order, picks, self.free_seats())
    }

    /// Every random draw seats everyone.
    pub open spec fn every_draw_seats_all(&self, recent: &SeatingChart, previous: &SeatingChart) -> bool {
        forall|names: Seq<Seq<char>>, order: Seq<usize>, picks: Seq<Zone>|
            #[trigger] self.fair_draw(recent, previous, names, order, picks) ==> self.draw_result(
                recent,
                previous,
                names,
                order,
                picks,
            ) is Some
    }

    /// No random draw seats everyone.
    pub open spec fn no_draw_seats_all(&self, recent: &SeatingChart, previous: &SeatingChart) -> bool {
        forall|names: Seq<Seq<char>>, order: Seq<usize>, picks: Seq<Zone>|
            #[trigger] self.fair_draw(recent, previous, names, order, picks) ==> self.draw_result(
                recent,
                previous,
                names,
                order,
                picks,
            ) is None
    }

    /// `chart` lists, in order, the (name, zone) pairs that the pass gives
    /// for some random draw.
    pub open spec fn drawn_chart(
        &self,
        recent: &SeatingChart,
        previous: &SeatingChart,
        chart: &SeatingChart,
    ) -> bool {
        exists|names: Seq<Seq<char>>, order: Seq<usize>, picks: Seq<Zone>|
            #[trigger] self.fair_draw(recent, previous, names, order, picks) && (self.draw_result(
                recent,
                previous,
                names,
                order,
                picks,
            ) matches Some(s) && entry_views(chart.entries()) == s.0)
    }

    /// The draw `d` (an order and the picks) of the people `names` is fair
    /// and runs out of seats.
    pub open spec fn failed_draw(
        &self,
        recent: &SeatingChart,
        previous: &SeatingChart,
        names: Seq<Seq<char>>,
        d: (Seq<usize>, Seq<Zone>),
    ) -> bool {
        &&& self.fair_draw(recent, previous, names, d.0, d.1)
        &&& self.draw_result(recent, previous, names, d.0, d.1) is None
    }

    /// Each of `draws` is a fair draw that runs out of seats.
    pub open spec fn failed_draws(
        &self,
        recent: &SeatingChart,
        previous: &SeatingChart,
        names: Seq<Seq<char>>,
        draws: Seq<(Seq<usize>, Seq<Zone>)>,
    ) -> bool {
        forall|j: int|
            0 <= j < draws.len() ==> #[trigger] self.failed_draw(recent, previous, names, draws[j])
    }

    /// `attempts` random draws were made, and each ran out of seats.
    pub open spec fn attempts_failed(
        &self,
        recent: &SeatingChart,
        previous: &SeatingChart,
        attempts: nat,
    ) -> bool {
        exists|names: Seq<Seq<char>>, draws: Seq<(Seq<usize>, Seq<Zone>)>|
            draws.len() == attempts && #[trigger] self.failed_draws(recent, previous, names, draws)
    }

    /// What a generation from the two charts promises of its result `r`.
    /// With `people` the people named by either chart: it fails with
    /// `NoPeople` exactly when there are none, and with `CapacityMismatch`
    /// exactly when there are some but not as many as seats; it never fails
    /// with `NoAllowedZones`; a chart that comes back is valid and is what
    /// some random draw gives; `AttemptsExhausted` comes only after 200
    /// draws that each ran out of seats. Where people and seats are equally
    /// many, it succeeds whenever every draw seats everyone (as when each
    /// person may take a zone with room for all who may take it), and fails
    /// whenever none does (as when somebody may only take zones without
    /// seats).
    pub open spec fn generates(
        &self,
        recent: &SeatingChart,
        previous: &SeatingChart,
        r: Result<SeatingChart, GenerateError>,
    ) -> bool {
        let people = recent@.dom() + previous@.dom();
        let matched = people.len() != 0 && people.len() == self.total_capacity();
        &&& (r matches Err(GenerateError::NoPeople)) <==> people.len() == 0
        &&& (r matches Err(GenerateError::CapacityMismatch { .. })) <==> people.len() != 0
            && people.len() != self.total_capacity()
        &&& r matches Err(GenerateError::CapacityMismatch { people: count, capacity }) ==> count
            == people.len() && capacity == self.total_capacity()
        &&& !(r matches Err(GenerateError::NoAllowedZones { .. }))
        &&& r matches Ok(chart) ==> self.is_valid_chart(&chart, recent, previous)
            && self.drawn_chart(recent, previous, &chart)
        &&& r matches Err(GenerateError::AttemptsExhausted) ==> self.attempts_failed(
            recent,
            previous,
            200,
        )
        &&& matched && self.every_draw_seats_all(recent, previous) ==> r is Ok
        &&& matched && self.no_draw_seats_all(recent, previous) ==> (r matches Err(
            GenerateError::AttemptsExhausted,
        ))
        &&& matched && self.room_for_all_people(recent, previous) ==> r is Ok
        &&& matched && self.someone_without_seats(recent, previous) ==> (r matches Err(
            GenerateError::AttemptsExhausted,
        ))
    }

    /// A new chart from the two most recent ones: everyone named by either
    /// chart is seated, each in a zone that the seating rule allows given
    /// their zones in `recent` and in `previous`, and every zone is filled
    /// to its capacity. The chart is drawn at random: the people are put in
    /// a random order, and each in turn takes a random one of their allowed
    /// zones that still has a free seat; a draw in which somebody finds no
    /// free seat is dropped and another one made, up to `MAX_ATTEMPTS`
    /// (200) draws. It fails when nobody is named, when people and seats
    /// are not equally many, and when each of the 200 draws runs out of
    /// seats; so it succeeds whenever every draw would seat everyone, and
    /// fails whenever none would.
    pub fn generate(&self, recent: &SeatingChart, previous: &SeatingChart) -> (r: Result<
        SeatingChart,
        GenerateError,
    >)
        ensures
            self.generates(recent, previous, r),
    {
        let people = Self::all_people(recent, previous);
        let ghost names = views(people@);
        proof {
            assert(names.no_duplicates()) by {
                assert forall|i: int, j: int| 0 <= i < names.len() && 0 <= j < names.len() && i != j implies names[i] != names[j] by {
                    if i < j {
                        lemma_text_order(names[i], names[j], names[j]);
                    } else {
                        lemma_text_order(names[j], names[i], names[i]);
                    }
                }
            }
            names.unique_seq_to_set();
        }
        let n = people.len();
        if n == 0 {
            return Err(GenerateError::NoPeople);
        }
        let total = self.total_capacity_of();
        if n as u128 != total {
            return Err(GenerateError::CapacityMismatch { people: n, capacity: total });
        }

        let mut person_options: Vec<(String, Vec<Zone>)> = Vec::new();
        let mut i: usize = 0;
        while i < n
            invariant
                n == people@.len(),
                names == views(people@),
                i <= n,
                person_options@.len() == i,
                forall|j: int|
                    0 <= j < i ==> (#[trigger] person_options@[j]).0@ == names[j]
                        && person_options@[j].1@ == allowed_zones_spec(
                        lookup(recent@, names[j]),
                        lookup(previous@, names[j]),
                    ) && person_options@[j].1@.contains(Zone::Zone3),
            decreases n - i,
        {
            let p = &people[i];
            let prev1 = recent.get(p.as_str());
            let prev2 = previous.get(p.as_str());
            let allowed = self.allowed_zones(prev1, prev2);
            person_options.push((p.clone(), allowed));
            i = i + 1;
        }

        let mut i: usize = 0;
        while i < n
            invariant
                n == person_options@.len(),
                i <= n,
                forall|j: int|
                    0 <= j < n ==> (#[trigger] person_options@[j]).1@.contains(Zone::Zone3),
            decreases n - i,
        {
            if person_options[i].1.len() == 0 {
                assert(person_options@[i as int].1@.contains(Zone::Zone3));
                return Err(GenerateError::NoAllowedZones { person: person_options[i].0.clone() });
            }
            i = i + 1;
        }

        proof {
            assert forall|a: int, b: int|
                0 <= a < b < person_options@.len() implies (#[trigger] person_options@[a]).0@ != (
                #[trigger] person_options@[b]).0@ by {
                assert(names[a] != names[b]);
            }
            self.lemma_options_room(&person_options, names, recent, previous);
        }
        let ghost allowed = allowed_lists(recent@, previous@, names);
        proof {
            assert(option_names(person_options@) =~= names);
            assert(option_zones(person_options@) =~= allowed);
            assert(roster(names, recent, previous));
        }
        let ghost mut failed: Seq<(Seq<usize>, Seq<Zone>)> = Seq::empty();
        let mut attempt: usize = 0;
        while attempt < MAX_ATTEMPTS
            invariant
                n == person_options@.len(),
                n == names.len(),
                n == self.total_capacity(),
                n > 0,
                (recent@.dom() + previous@.dom()).len() == n,
                names.to_set() == recent@.dom() + previous@.dom(),
                roster(names, recent, previous),
                allowed == allowed_lists(recent@, previous@, names),
                option_names(person_options@) == names,
                option_zones(person_options@) == allowed,
                forall|a: int, b: int|
                    0 <= a < b < person_options@.len() ==> (#[trigger] person_options@[a]).0@ != (
                    #[trigger] person_options@[b]).0@,
                forall|j: int|
                    0 <= j < n ==> (#[trigger] person_options@[j]).0@ == names[j]
                        && person_options@[j].1@ == allowed_zones_spec(
                        lookup(recent@, names[j]),
                        lookup(previous@, names[j]),
                    ),
                self.room_for_all_people(recent, previous) ==> self.room_for_everyone(
                    &person_options,
                ),
                self.someone_without_seats(recent, previous) ==> self.someone_seatless(
                    &person_options,
                ),
                attempt > 0 ==> !self.room_for_everyone(&person_options),
                attempt <= MAX_ATTEMPTS,
                failed.len() == attempt,
                self.failed_draws(recent, previous, names, failed),
                attempt > 0 ==> !self.every_draw_seats_all(recent, previous),
            decreases MAX_ATTEMPTS - attempt,
        {
            let r = self.try_assign(&person_options);
            let ghost (order, picks) = choose|order: Seq<usize>, picks: Seq<Zone>|
                #[trigger] self.drawn_outcome(&person_options, order, picks, r);
            proof {
                assert(self.drawn_outcome(&person_options, order, picks, r));
                assert(self.fair_draw(recent, previous, names, order, picks));
            }
            if let Some(chart) = r {
                proof {
                    self.lemma_chart_valid(&chart, &person_options, names, recent, previous);
                    assert(self.drawn_chart(recent, previous, &chart));
                }
                return Ok(chart);
            }
            proof {
                let ghost before = failed;
                failed = failed.push((order, picks));
                assert(self.failed_draw(recent, previous, names, (order, picks)));
                assert forall|j: int| 0 <= j < failed.len() implies #[trigger] self.failed_draw(
                    recent,
                    previous,
                    names,
                    failed[j],
                ) by {
                    if j < before.len() {
                        assert(failed[j] == before[j]);
                    }
                }
            }
            attempt = attempt + 1;
        }
        proof {
            assert(failed.len() == 200);
            assert(self.failed_draws(recent, previous, names, failed));
        }
        Err(GenerateError::AttemptsExhausted)
    }
}

/// In a valid chart nobody keeps a zone other than Zone 3 that they had in
/// the most recent chart.
pub proof fn lemma_no_restricted_zone_twice(
    g: Generator,
    chart: &SeatingChart,
    recent: &SeatingChart,
    previous: &SeatingChart,
    person: Seq<char>,
)
    requires
        g.is_valid_chart(chart, recent, previous),
        chart@.dom().contains(person),
        recent@.dom().contains(person),
        recent@[person] != Zone::Zone3,
    ensures
        chart@[person] != recent@[person],
{
}

/// In a valid chart nobody who sat in the Zone 2 area (2a or 2b) in both
/// previous charts sits there again.
pub proof fn lemma_zone2_at_most_twice(
    g: Generator,
    chart: &SeatingChart,
    recent: &SeatingChart,
    previous: &SeatingChart,
    person: Seq<char>,
)
    requires
        g.is_valid_chart(chart, recent, previous),
        chart@.dom().contains(person),
        recent@.dom().contains(person),
        previous@.dom().contains(person),
        recent@[person].spec_in_zone2(),
        previous@[person].spec_in_zone2(),
    ensures
        !chart@[person].spec_in_zone2(),
{
    assert(zone2_twice(lookup(recent@, person), lookup(previous@, person)));
}

/// A valid chart has as many entries as the zones have seats.
pub proof fn lemma_valid_chart_size(
    g: Generator,
    chart: &SeatingChart,
    recent: &SeatingChart,
    previous: &SeatingChart,
)
    requires
        g.is_valid_chart(chart, recent, previous),
    ensures
        chart.entries().len() == g.total_capacity(),
{
    lemma_zone_counts_sum(chart.entries());
    assert(chart.count_in(Zone::Zone1) == g.capacity(Zone::Zone1));
    assert(chart.count_in(Zone::Zone2a) == g.capacity(Zone::Zone2a));
    assert(chart.count_in(Zone::Zone2b) == g.capacity(Zone::Zone2b));
    assert(chart.count_in(Zone::Zone3) == g.capacity(Zone::Zone3));
}

} // verus!
