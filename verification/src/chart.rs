use vstd::prelude::*;

use crate::text::{insert_sorted, same_text, strictly_sorted, views};
use crate::zone::Zone;

verus! {

/// No two entries carry the same name.
pub open spec fn names_distinct(e: Seq<(String, Zone)>) -> bool {
    forall|i: int, j: int| 0 <= i < j < e.len() ==> (#[trigger] e[i]).0@ != (#[trigger] e[j]).0@
}

/// The map from names to zones that a list of (name, zone) pairs describes,
/// a later pair for a name replacing an earlier one.
pub open spec fn pairs_map(e: Seq<(String, Zone)>) -> Map<Seq<char>, Zone>
    decreases e.len(),
{
    if e.len() == 0 {
        Map::empty()
    } else {
        pairs_map(e.drop_last()).insert(e.last().0@, e.last().1)
    }
}

/// The number of entries seated in zone `z`.
pub open spec fn zone_count(e: Seq<(String, Zone)>, z: Zone) -> nat
    decreases e.len(),
{
    if e.len() == 0 {
        0
    } else {
        zone_count(e.drop_last(), z) + if e.last().1 == z {
            1nat
        } else {
            0nat
        }
    }
}

/// The map of pairs with distinct names holds exactly their names, each
/// with its own zone.
pub proof fn lemma_pairs_map(e: Seq<(String, Zone)>)
    requires
        names_distinct(e),
    ensures
        pairs_map(e).dom().finite(),
        forall|i: int|
            0 <= i < e.len() ==> #[trigger] pairs_map(e).dom().contains(e[i].0@) && pairs_map(
                e,
            )[e[i].0@] == e[i].1,
        forall|k: Seq<char>| #[trigger]
            pairs_map(e).dom().contains(k) ==> exists|i: int| 0 <= i < e.len() && e[i].0@ == k,
    decreases e.len(),
{
    if e.len() > 0 {
        let d = e.drop_last();
        lemma_pairs_map(d);
        assert forall|k: Seq<char>| #[trigger]
            pairs_map(e).dom().contains(k) implies exists|i: int| 0 <= i < e.len() && e[i].0@ == k by {
            if k == e.last().0@ {
                assert(e[e.len() - 1].0@ == k);
            } else {
                let i = choose|i: int| 0 <= i < d.len() && d[i].0@ == k;
                assert(e[i].0@ == k);
            }
        }
        assert forall|i: int| 0 <= i < e.len() implies #[trigger] pairs_map(e).dom().contains(
            e[i].0@,
        ) && pairs_map(e)[e[i].0@] == e[i].1 by {
            if i < e.len() - 1 {
                assert(d[i] == e[i]);
                assert(e[i].0@ != e[e.len() - 1].0@);
            }
        }
    }
}

/// The map of any list of pairs: a name is in it exactly when some pair
/// carries it, and its zone is that of the last pair that does.
pub proof fn lemma_later_pair_wins(e: Seq<(String, Zone)>, name: Seq<char>)
    ensures
        pairs_map(e).dom().contains(name) <==> exists|i: int|
            0 <= i < e.len() && (#[trigger] e[i]).0@ == name,
        pairs_map(e).dom().contains(name) ==> exists|i: int|
            0 <= i < e.len() && (#[trigger] e[i]).0@ == name && e[i].1 == pairs_map(e)[name]
                && forall|j: int| i < j < e.len() ==> (#[trigger] e[j]).0@ != name,
    decreases e.len(),
{
    if e.len() > 0 {
        let a = e.drop_last();
        let n = e.len() - 1;
        lemma_later_pair_wins(a, name);
        assert(e[n] == e.last());
        if exists|i: int| 0 <= i < e.len() && (#[trigger] e[i]).0@ == name {
            let i = choose|i: int| 0 <= i < e.len() && (#[trigger] e[i]).0@ == name;
            if i < n {
                assert(a[i] == e[i]);
            }
        }
        if pairs_map(e).dom().contains(name) {
            if e.last().0@ == name {
                assert(e[n].0@ == name);
            } else {
                let i = choose|i: int|
                    0 <= i < a.len() && (#[trigger] a[i]).0@ == name && a[i].1 == pairs_map(a)[name]
                        && forall|j: int| i < j < a.len() ==> (#[trigger] a[j]).0@ != name;
                assert(e[i] == a[i]);
                assert forall|j: int| i < j < e.len() implies (#[trigger] e[j]).0@ != name by {
                    if j < n {
                        assert(e[j] == a[j]);
                    }
                }
            }
        }
    }
}

/// Changing the zone of the entry at `p` changes the map at that name only.
proof fn lemma_pairs_map_update(e: Seq<(String, Zone)>, p: int, z: Zone)
    requires
        names_distinct(e),
        0 <= p < e.len(),
    ensures
        pairs_map(e.update(p, (e[p].0, z))) =~= pairs_map(e).insert(e[p].0@, z),
    decreases e.len(),
{
    let u = e.update(p, (e[p].0, z));
    if p == e.len() - 1 {
        assert(u.drop_last() =~= e.drop_last());
    } else {
        assert(u.drop_last() =~= e.drop_last().update(p, (e[p].0, z)));
        lemma_pairs_map_update(e.drop_last(), p, z);
        assert(e[p].0@ != e[e.len() - 1].0@);
    }
}

/// The number of entries across all four zones is the number of entries.
pub proof fn lemma_zone_counts_sum(e: Seq<(String, Zone)>)
    ensures
        zone_count(e, Zone::Zone1) + zone_count(e, Zone::Zone2a) + zone_count(e, Zone::Zone2b)
            + zone_count(e, Zone::Zone3) == e.len(),
    decreases e.len(),
{
    if e.len() > 0 {
        lemma_zone_counts_sum(e.drop_last());
    }
}

/// The people whom map `m` seats in zone `z`.
pub open spec fn zone_members(m: Map<Seq<char>, Zone>, z: Zone) -> Set<Seq<char>> {
    m.dom().filter(|p: Seq<char>| m[p] == z)
}

/// For entries with distinct names, the number seated in a zone is the
/// number of people the map seats there.
pub proof fn lemma_zone_members_count(e: Seq<(String, Zone)>, z: Zone)
    requires
        names_distinct(e),
    ensures
        zone_members(pairs_map(e), z).finite(),
        zone_members(pairs_map(e), z).len() == zone_count(e, z),
    decreases e.len(),
{
    lemma_pairs_map(e);
    if e.len() == 0 {
        assert(zone_members(pairs_map(e), z) =~= Set::<Seq<char>>::empty());
    } else {
        let d = e.drop_last();
        assert forall|a: int, b: int| 0 <= a < b < d.len() implies (#[trigger] d[a]).0@ != (
        #[trigger] d[b]).0@ by {
            assert(d[a] == e[a] && d[b] == e[b]);
        }
        lemma_zone_members_count(d, z);
        lemma_pairs_map(d);
        let n = e.last().0@;
        assert(!pairs_map(d).dom().contains(n)) by {
            if pairs_map(d).dom().contains(n) {
                let i = choose|i: int| 0 <= i < d.len() && d[i].0@ == n;
                assert(e[i].0@ != e[e.len() - 1].0@);
            }
        }
        let md = pairs_map(d);
        let me = pairs_map(e);
        assert(me == md.insert(n, e.last().1));
        if e.last().1 == z {
            assert(zone_members(me, z) =~= zone_members(md, z).insert(n));
        } else {
            assert(zone_members(me, z) =~= zone_members(md, z));
        }
    }
}

/// Who sits in which zone.
#[derive(Debug)]
pub struct SeatingChart {
    assignments: Vec<(String, Zone)>,
}

impl SeatingChart {
    #[verifier::type_invariant]
    spec fn well_formed(self) -> bool {
        names_distinct(self.assignments@)
    }

    /// The chart's entries, one per person, in the order they were added.
    pub closed spec fn entries(&self) -> Seq<(String, Zone)> {
        self.assignments@
    }

    /// The number of people seated in zone `z`.
    pub open spec fn count_in(&self, z: Zone) -> nat {
        zone_count(self.entries(), z)
    }

    /// A chart made of entries whose names are distinct.
    pub(crate) fn from_distinct(assignments: Vec<(String, Zone)>) -> (r: Self)
        requires
            names_distinct(assignments@),
        ensures
            r.entries() == assignments@,
    {
        SeatingChart { assignments }
    }

    /// A chart with the given assignments. As when a map is built from
    /// pairs, a later pair for a name replaces an earlier one.
    pub fn new(assignments: Vec<(String, Zone)>) -> (r: Self)
        ensures
            r@ == pairs_map(assignments@),
    {
        let mut result: Vec<(String, Zone)> = Vec::new();
        let n = assignments.len();
        let mut i: usize = 0;
        while i < n
            invariant
                n == assignments@.len(),
                i <= n,
                names_distinct(result@),
                pairs_map(result@) =~= pairs_map(assignments@.take(i as int)),
            decreases n - i,
        {
            let name = &assignments[i].0;
            let zone = assignments[i].1;
            let mut p: usize = 0;
            let mut found = false;
            while p < result.len()
                invariant
                    names_distinct(result@),
                    p <= result.len(),
                    !found ==> forall|j: int| 0 <= j < p ==> (#[trigger] result@[j]).0@ != name@,
                    found ==> p < result.len() && result@[p as int].0@ == name@,
                ensures
                    p <= result.len(),
                    !found ==> forall|j: int|
                        0 <= j < result.len() ==> (#[trigger] result@[j]).0@ != name@,
                    found ==> p < result.len() && result@[p as int].0@ == name@,
                decreases result.len() - p,
            {
                if same_text(result[p].0.as_str(), name.as_str()) {
                    found = true;
                    break;
                }
                p = p + 1;
            }
            assert(assignments@.take(i + 1).drop_last() =~= assignments@.take(i as int));
            if found {
                let ghost before = result@;
                let kept = result[p].0.clone();
                result.set(p, (kept, zone));
                proof {
                    assert(result@ =~= before.update(p as int, (before[p as int].0, zone)));
                    lemma_pairs_map_update(before, p as int, zone);
                    assert forall|a: int, b: int| 0 <= a < b < result@.len() implies (
                    #[trigger] result@[a]).0@ != (#[trigger] result@[b]).0@ by {
                        assert(before[a].0@ != before[b].0@);
                    }
                }
            } else {
                let ghost before = result@;
                result.push((name.clone(), zone));
                proof {
                    assert(result@.drop_last() =~= before);
                    assert forall|a: int, b: int| 0 <= a < b < result@.len() implies (
                    #[trigger] result@[a]).0@ != (#[trigger] result@[b]).0@ by {
                        if b < before.len() {
                            assert(before[a].0@ != before[b].0@);
                        } else {
                            assert(before[a].0@ != name@);
                        }
                    }
                }
            }
            i = i + 1;
        }
        assert(assignments@.take(n as int) =~= assignments@);
        SeatingChart { assignments: result }
    }

    /// The chart's entries: each person once, with their zone.
    pub fn assignments(&self) -> (r: &Vec<(String, Zone)>)
        ensures
            r@ == self.entries(),
            names_distinct(r@),
            pairs_map(r@) == self@,
    {
        proof {
            use_type_invariant(self);
        }
        &self.assignments
    }

    /// The zone of `person`, if the chart seats them.
    pub fn get(&self, person: &str) -> (r: Option<Zone>)
        ensures
            r == (if self@.dom().contains(person@) {
                Some(self@[person@])
            } else {
                None
            }),
    {
        proof {
            use_type_invariant(self);
            lemma_pairs_map(self.assignments@);
        }
        let mut i: usize = 0;
        while i < self.assignments.len()
            invariant
                i <= self.assignments@.len(),
                names_distinct(self.assignments@),
                forall|j: int| 0 <= j < i ==> (#[trigger] self.assignments@[j]).0@ != person@,
            decreases self.assignments@.len() - i,
        {
            if same_text(self.assignments[i].0.as_str(), person) {
                proof {
                    lemma_pairs_map(self.assignments@);
                }
                assert(self@.dom().contains(self.assignments@[i as int].0@));
                return Some(self.assignments[i].1);
            }
            i = i + 1;
        }
        proof {
            lemma_pairs_map(self.assignments@);
        }
        None
    }

    /// Everyone the chart seats, in the order of strings.
    pub fn people(&self) -> (r: Vec<String>)
        ensures
            strictly_sorted(views(r@)),
            views(r@).to_set() == self@.dom(),
    {
        proof {
            use_type_invariant(self);
            lemma_pairs_map(self.assignments@);
        }
        let mut people: Vec<String> = Vec::new();
        let mut i: usize = 0;
        while i < self.assignments.len()
            invariant
                i <= self.assignments@.len(),
                strictly_sorted(views(people@)),
                forall|k: Seq<char>|
                    views(people@).to_set().contains(k) <==> exists|j: int|
                        0 <= j < i && (#[trigger] self.assignments@[j]).0@ == k,
            decreases self.assignments@.len() - i,
        {
            let ghost before = views(people@).to_set();
            insert_sorted(&mut people, &self.assignments[i].0);
            proof {
                assert forall|k: Seq<char>| (exists|j: int|
                    0 <= j < i + 1 && (#[trigger] self.assignments@[j]).0@ == k) implies views(people@).to_set().contains(k) by {
                    let j = choose|j: int| 0 <= j < i + 1 && (#[trigger] self.assignments@[j]).0@ == k;
                    if j < i {
                        assert(before.contains(k));
                    }
                }
            }
            i = i + 1;
        }
        assert(views(people@).to_set() =~= self@.dom());
        people
    }
}

impl Clone for SeatingChart {
    /// A copy with the same entries.
    fn clone(&self) -> (r: Self)
        ensures
            r.entries() == self.entries(),
    {
        proof {
            use_type_invariant(self);
        }
        let mut copy: Vec<(String, Zone)> = Vec::new();
        let mut i: usize = 0;
        while i < self.assignments.len()
            invariant
                i <= self.assignments@.len(),
                copy@ =~= self.assignments@.take(i as int),
            decreases self.assignments@.len() - i,
        {
            copy.push((self.assignments[i].0.clone(), self.assignments[i].1));
            i = i + 1;
        }
        assert(copy@ =~= self.assignments@);
        SeatingChart { assignments: copy }
    }
}

impl View for SeatingChart {
    type V = Map<Seq<char>, Zone>;

    /// Each person's zone.
    open spec fn view(&self) -> Map<Seq<char>, Zone> {
        pairs_map(self.entries())
    }
}

} // verus!
