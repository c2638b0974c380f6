use vstd::prelude::*;

use crate::chart::{
    lemma_pairs_map, lemma_zone_members_count, names_distinct, pairs_map, zone_count, zone_members,
    SeatingChart,
};
use crate::generator::last_capacity;
use crate::random::{all_positions, shuffled_positions, thread_rng};
use crate::text::{same_text, trim_text, trimmed};
use crate::zone::{zone_at, Zone};

verus! {

/// The cells of the template that seat each zone, by cell reference
/// (such as "B3").
pub struct ZoneCellConfig<'a> {
    pub zone1: Vec<&'a str>,
    pub zone2a: Vec<&'a str>,
    pub zone2b: Vec<&'a str>,
    pub zone3: Vec<&'a str>,
}

/// The zone that a template cell's marker text stands for: "1", "2a",
/// "2b" or "3".
pub open spec fn marker_zone(t: Seq<char>) -> Option<Zone> {
    if t == "1"@ {
        Some(Zone::Zone1)
    } else if t == "2a"@ {
        Some(Zone::Zone2a)
    } else if t == "2b"@ {
        Some(Zone::Zone2b)
    } else if t == "3"@ {
        Some(Zone::Zone3)
    } else {
        None
    }
}

/// The references of the template cells, given as (reference, value)
/// pairs, whose trimmed value marks zone `z`, in order.
pub open spec fn marked_cells(cells: Seq<(String, String)>, z: Zone) -> Seq<Seq<char>>
    decreases cells.len(),
{
    if cells.len() == 0 {
        Seq::empty()
    } else {
        let rest = marked_cells(cells.drop_last(), z);
        if marker_zone(trimmed(cells.last().1@)) == Some(z) {
            rest.push(cells.last().0@)
        } else {
            rest
        }
    }
}

/// Whether a template cell, given as a (reference, value) pair, marks zone
/// `z`: its trimmed value is the zone's marker.
pub open spec fn marks_zone(z: Zone) -> spec_fn((String, String)) -> bool {
    |c: (String, String)| marker_zone(trimmed(c.1@)) == Some(z)
}

/// The references of template cells, in order.
pub open spec fn cell_refs(cells: Seq<(String, String)>) -> Seq<Seq<char>> {
    cells.map_values(|c: (String, String)| c.0@)
}

/// The seats of a zone are all the template cells that mark it: each cell
/// whose trimmed value marks `z` is listed, none other is, in the order of
/// the template, so the zone has as many seats as cells mark it.
pub proof fn lemma_every_marked_cell_is_a_seat(cells: Seq<(String, String)>, z: Zone)
    ensures
        marked_cells(cells, z) == cell_refs(cells.filter(marks_zone(z))),
        marked_cells(cells, z).len() == cells.filter(marks_zone(z)).len(),
        forall|i: int|
            0 <= i < cells.len() && marker_zone(trimmed((#[trigger] cells[i]).1@)) == Some(z)
                ==> marked_cells(cells, z).contains(cells[i].0@),
    decreases cells.len(),
{
    let f = marks_zone(z);
    if cells.len() == 0 {
        assert(cells.filter(f) =~= Seq::<(String, String)>::empty());
        assert(cell_refs(cells.filter(f)) =~= Seq::<Seq<char>>::empty());
    } else {
        let a = cells.drop_last();
        let x = cells.last();
        lemma_every_marked_cell_is_a_seat(a, z);
        assert(cells =~= a.push(x));
        reveal_with_fuel(Seq::filter, 2);
        assert(cells.filter(f) == (if f(x) {
            a.filter(f).push(x)
        } else {
            a.filter(f)
        }));
        if f(x) {
            assert(cell_refs(a.filter(f).push(x)) =~= cell_refs(a.filter(f)).push(x.0@));
        }
        assert forall|i: int|
            0 <= i < cells.len() && marker_zone(trimmed((#[trigger] cells[i]).1@)) == Some(z)
                implies marked_cells(cells, z).contains(cells[i].0@) by {
            if i < cells.len() - 1 {
                assert(a[i] == cells[i]);
                assert(marked_cells(a, z).contains(a[i].0@));
                let k = choose|k: int| 0 <= k < marked_cells(a, z).len() && marked_cells(a, z)[k] == a[i].0@;
                if f(x) {
                    assert(marked_cells(cells, z)[k] == a[i].0@);
                }
            } else {
                assert(marked_cells(cells, z).last() == x.0@);
            }
        }
    }
}

/// The map from names to zones that the read cell values give: each value
/// is trimmed, empty ones are skipped, and a later cell holding a name
/// replaces an earlier one.
pub open spec fn cells_map(values: Seq<(Zone, String)>) -> Map<Seq<char>, Zone>
    decreases values.len(),
{
    if values.len() == 0 {
        Map::empty()
    } else {
        let rest = cells_map(values.drop_last());
        let t = trimmed(values.last().1@);
        if t.len() == 0 {
            rest
        } else {
            rest.insert(t, values.last().0)
        }
    }
}

/// The four markers: "1" marks Zone 1, "2a" Zone 2a, "2b" Zone 2b and "3"
/// Zone 3; any other text marks no zone.
pub proof fn lemma_markers(t: Seq<char>)
    ensures
        marker_zone(t) == Some(Zone::Zone1) <==> t == "1"@,
        marker_zone(t) == Some(Zone::Zone2a) <==> t == "2a"@,
        marker_zone(t) == Some(Zone::Zone2b) <==> t == "2b"@,
        marker_zone(t) == Some(Zone::Zone3) <==> t == "3"@,
        marker_zone(t) is None <==> (t != "1"@ && t != "2a"@ && t != "2b"@ && t != "3"@),
{
    reveal_strlit("1");
    reveal_strlit("2a");
    reveal_strlit("2b");
    reveal_strlit("3");
    assert("1"@.len() == 1 && "1"@[0] == '1');
    assert("3"@.len() == 1 && "3"@[0] == '3');
    assert("2a"@.len() == 2 && "2a"@[1] == 'a');
    assert("2b"@.len() == 2 && "2b"@[1] == 'b');
}

/// Reading a chart from cells: a name is seated exactly when some cell's
/// trimmed value is that name, an empty value seats nobody, and the name's
/// zone is that of the last cell that holds it.
pub proof fn lemma_cells_seat_their_names(values: Seq<(Zone, String)>, name: Seq<char>)
    ensures
        !cells_map(values).dom().contains(Seq::<char>::empty()),
        name.len() > 0 ==> (cells_map(values).dom().contains(name) <==> exists|i: int|
            0 <= i < values.len() && trimmed((#[trigger] values[i]).1@) == name),
        cells_map(values).dom().contains(name) ==> exists|i: int|
            0 <= i < values.len() && trimmed((#[trigger] values[i]).1@) == name && values[i].0
                == cells_map(values)[name] && forall|j: int|
                i < j < values.len() ==> trimmed((#[trigger] values[j]).1@) != name,
    decreases values.len(),
{
    if values.len() > 0 {
        let a = values.drop_last();
        let x = values.last();
        let n = values.len() - 1;
        lemma_cells_seat_their_names(a, name);
        assert(values[n] == x);
        assert forall|i: int| 0 <= i < a.len() implies #[trigger] a[i] == values[i] by {}
        if name.len() > 0 {
            if cells_map(values).dom().contains(name) && trimmed(x.1@) != name {
                let i = choose|i: int| 0 <= i < a.len() && trimmed((#[trigger] a[i]).1@) == name;
                assert(values[i] == a[i]);
            }
            if exists|i: int| 0 <= i < values.len() && trimmed((#[trigger] values[i]).1@) == name {
                let i = choose|i: int| 0 <= i < values.len() && trimmed((#[trigger] values[i]).1@) == name;
                if i < n {
                    assert(a[i] == values[i]);
                }
            }
        }
        if cells_map(values).dom().contains(name) {
            assert(name.len() > 0) by {
                if name.len() == 0 {
                    assert(name =~= Seq::<char>::empty());
                }
            }
            if trimmed(x.1@) == name {
                assert(trimmed(values[n].1@) == name);
            } else {
                let i = choose|i: int|
                    0 <= i < a.len() && trimmed((#[trigger] a[i]).1@) == name && a[i].0
                        == cells_map(a)[name] && forall|j: int|
                        i < j < a.len() ==> trimmed((#[trigger] a[j]).1@) != name;
                assert(values[i] == a[i]);
                assert forall|j: int| i < j < values.len() implies trimmed(
                    (#[trigger] values[j]).1@,
                ) != name by {
                    if j < n {
                        assert(values[j] == a[j]);
                    }
                }
            }
        }
    }
}

/// The names of the entries seated in zone `z`, in entry order.
pub open spec fn zone_people(e: Seq<(String, Zone)>, z: Zone) -> Seq<Seq<char>>
    decreases e.len(),
{
    if e.len() == 0 {
        Seq::empty()
    } else if e.last().1 == z {
        zone_people(e.drop_last(), z).push(e.last().0@)
    } else {
        zone_people(e.drop_last(), z)
    }
}

/// `writes` fills the first cells of `cells`, one person each, with the
/// people of `zone` taken in the random `order`: position `q` gets the
/// person at position `order[q]` of the zone's people, and as many cells are
/// filled as there are such people or cells, whichever is fewer.
pub open spec fn drawn_writes<'a>(
    chart: &SeatingChart,
    zone: Zone,
    cells: Seq<&'a str>,
    order: Seq<usize>,
    writes: Seq<(&'a str, String)>,
) -> bool {
    let people = zone_people(chart.entries(), zone);
    &&& order.len() == people.len()
    &&& order.to_multiset() == all_positions(people.len()).to_multiset()
    &&& writes.len() == if people.len() < cells.len() {
        people.len()
    } else {
        cells.len() as nat
    }
    &&& forall|q: int|
        0 <= q < writes.len() ==> (#[trigger] writes[q]).0 == cells[q] && writes[q].1@
            == people[order[q] as int]
}

/// The views of a list of cell references.
pub open spec fn refs(v: Seq<&str>) -> Seq<Seq<char>> {
    v.map_values(|s: &str| s@)
}

/// `writes` puts distinct people of `chart` who sit in `zone` into the
/// first cells of `cells`, one each, filling as many cells as there are
/// such people or cells, whichever is fewer.
pub open spec fn zone_writes_fit<'a>(
    chart: &SeatingChart,
    zone: Zone,
    cells: Seq<&'a str>,
    writes: Seq<(&'a str, String)>,
) -> bool {
    &&& writes.len() == if chart.count_in(zone) < cells.len() {
        chart.count_in(zone)
    } else {
        cells.len() as nat
    }
    &&& forall|i: int|
        0 <= i < writes.len() ==> (#[trigger] writes[i]).0 == cells[i] && chart@.dom().contains(
            writes[i].1@,
        ) && chart@[writes[i].1@] == zone
    &&& forall|i: int, j: int|
        0 <= i < j < writes.len() ==> (#[trigger] writes[i]).1@ != (#[trigger] writes[j]).1@
}

impl<'a> ZoneCellConfig<'a> {
    /// The cells of zone `z`.
    pub open spec fn cells_of(&self, z: Zone) -> Seq<&'a str> {
        match z {
            Zone::Zone1 => self.zone1@,
            Zone::Zone2a => self.zone2a@,
            Zone::Zone2b => self.zone2b@,
            Zone::Zone3 => self.zone3@,
        }
    }

    /// Each zone's capacity: its number of cells.
    pub fn to_capacities(&self) -> (r: Vec<(Zone, usize)>)
        ensures
            r@ == seq![
                (Zone::Zone1, self.zone1.len()),
                (Zone::Zone2a, self.zone2a.len()),
                (Zone::Zone2b, self.zone2b.len()),
                (Zone::Zone3, self.zone3.len()),
            ],
    {
        vec![
            (Zone::Zone1, self.zone1.len()),
            (Zone::Zone2a, self.zone2a.len()),
            (Zone::Zone2b, self.zone2b.len()),
            (Zone::Zone3, self.zone3.len()),
        ]
    }

    /// Every zone with its cells, in the order of `Zone::all()`.
    pub fn all_zones(&self) -> (r: [(Zone, &[&'a str]); 4])
        ensures
            forall|j: int|
                0 <= j < 4 ==> (#[trigger] r@[j]).0 == zone_at(j) && r@[j].1@ == self.cells_of(
                    zone_at(j),
                ),
    {
        [
            (Zone::Zone1, self.zone1.as_slice()),
            (Zone::Zone2a, self.zone2a.as_slice()),
            (Zone::Zone2b, self.zone2b.as_slice()),
            (Zone::Zone3, self.zone3.as_slice()),
        ]
    }

    /// The configuration that a template describes, given as its cells'
    /// (reference, value) pairs: a cell whose trimmed value is "1", "2a",
    /// "2b" or "3" is a seat of that zone; zones list their cells in the
    /// order given.
    pub fn from_template_cells(cells: &'a Vec<(String, String)>) -> (r: Self)
        ensures
            forall|z: Zone| #[trigger] refs(r.cells_of(z)) == marked_cells(cells@, z),
            forall|z: Zone|
                #[trigger] r.cells_of(z).len() == cells@.filter(marks_zone(z)).len() && refs(
                    r.cells_of(z),
                ) == cell_refs(cells@.filter(marks_zone(z))),
    {
        let mut config = ZoneCellConfig {
            zone1: Vec::new(),
            zone2a: Vec::new(),
            zone2b: Vec::new(),
            zone3: Vec::new(),
        };
        proof {
            reveal_strlit("1");
            reveal_strlit("2a");
            reveal_strlit("2b");
            reveal_strlit("3");
        }
        let mut i: usize = 0;
        while i < cells.len()
            invariant
                i <= cells@.len(),
                forall|z: Zone| #[trigger]
                    refs(config.cells_of(z)) == marked_cells(cells@.take(i as int), z),
            decreases cells@.len() - i,
        {
            let cell_ref: &'a str = cells[i].0.as_str();
            let marker = trim_text(cells[i].1.as_str());
            let ghost before = config;
            let ghost t = cells@.take(i + 1);
            assert(t.drop_last() =~= cells@.take(i as int));
            assert(t.last() == cells@[i as int]);
            if same_text(marker, "1") {
                config.zone1.push(cell_ref);
            } else if same_text(marker, "2a") {
                config.zone2a.push(cell_ref);
            } else if same_text(marker, "2b") {
                config.zone2b.push(cell_ref);
            } else if same_text(marker, "3") {
                config.zone3.push(cell_ref);
            }
            proof {
                assert forall|z: Zone| #[trigger] refs(config.cells_of(z)) == marked_cells(t, z) by {
                    assert(refs(before.cells_of(z)) == marked_cells(cells@.take(i as int), z));
                    if marker_zone(marker@) == Some(z) {
                        assert(refs(config.cells_of(z)) =~= refs(before.cells_of(z)).push(
                            cell_ref@,
                        ));
                    } else {
                        assert(config.cells_of(z) == before.cells_of(z));
                    }
                }
            }
            i = i + 1;
        }
        assert(cells@.take(cells@.len() as int) =~= cells@);
        proof {
            assert forall|z: Zone|
                #[trigger] config.cells_of(z).len() == cells@.filter(marks_zone(z)).len() && refs(
                    config.cells_of(z),
                ) == cell_refs(cells@.filter(marks_zone(z))) by {
                lemma_every_marked_cell_is_a_seat(cells@, z);
                assert(refs(config.cells_of(z)).len() == config.cells_of(z).len());
            }
        }
        config
    }

    /// For each zone, in the order of `Zone::all()`, the (cell, person)
    /// writes that fill the zone's cells with the people `chart` seats
    /// there, taken in a random order.
    pub fn chart_writes(&self, chart: &SeatingChart) -> (r: Vec<Vec<(&'a str, String)>>)
        ensures
            r@.len() == 4,
            forall|j: int|
                0 <= j < 4 ==> zone_writes_fit(
                    chart,
                    zone_at(j),
                    self.cells_of(zone_at(j)),
                    #[trigger] r@[j]@,
                ),
    {
        let zones = self.all_zones();
        let mut r: Vec<Vec<(&'a str, String)>> = Vec::new();
        let mut j: usize = 0;
        while j < 4
            invariant
                j <= 4,
                r@.len() == j,
                forall|k: int|
                    0 <= k < 4 ==> (#[trigger] zones@[k]).0 == zone_at(k) && zones@[k].1@
                        == self.cells_of(zone_at(k)),
                forall|k: int|
                    0 <= k < j ==> zone_writes_fit(
                        chart,
                        zone_at(k),
                        self.cells_of(zone_at(k)),
                        #[trigger] r@[k]@,
                    ),
            decreases 4 - j,
        {
            let (zone, cells) = zones[j];
            assert(zones@[j as int].0 == zone_at(j as int));
            let w = zone_writes(chart, zone, cells);
            r.push(w);
            j = j + 1;
        }
        r
    }
}

/// The map of names to zones that the cells read from a chart give, in
/// the order of the template's zones and cells: each value is trimmed and
/// empty values are skipped; a name read twice keeps its later zone.
pub fn chart_from_cells(values: &Vec<(Zone, String)>) -> (r: SeatingChart)
    ensures
        r@ == cells_map(values@),
{
    let mut pairs: Vec<(String, Zone)> = Vec::new();
    let mut i: usize = 0;
    while i < values.len()
        invariant
            i <= values@.len(),
            pairs_map(pairs@) == cells_map(values@.take(i as int)),
        decreases values@.len() - i,
    {
        let name = trim_text(values[i].1.as_str());
        let ghost t = values@.take(i + 1);
        assert(t.drop_last() =~= values@.take(i as int));
        assert(t.last() == values@[i as int]);
        if !name.is_empty() {
            let ghost before = pairs@;
            pairs.push((name.to_owned(), values[i].0));
            assert(pairs@.drop_last() =~= before);
        }
        i = i + 1;
    }
    assert(values@.take(values@.len() as int) =~= values@);
    SeatingChart::new(pairs)
}

/// The (cell, person) writes that fill the given cells of a zone with the
/// people `chart` seats there, taken in a random order: the first cells
/// get one person each, as far as there are people.
pub fn zone_writes<'a>(chart: &SeatingChart, zone: Zone, cells: &[&'a str]) -> (r: Vec<
    (&'a str, String),
>)
    ensures
        zone_writes_fit(chart, zone, cells@, r@),
        exists|order: Seq<usize>| #[trigger] drawn_writes(chart, zone, cells@, order, r@),
{
    let entries = chart.assignments();
    proof {
        crate::chart::lemma_pairs_map(entries@);
    }
    let mut people: Vec<&String> = Vec::new();
    let ghost mut source: Seq<int> = Seq::empty();
    let mut i: usize = 0;
    while i < entries.len()
        invariant
            i <= entries@.len(),
            names_distinct(entries@),
            people@.len() == zone_count(entries@.take(i as int), zone),
            source.len() == people@.len(),
            forall|k: int|
                0 <= k < people@.len() ==> #[trigger] people@[k]@ == zone_people(
                    entries@.take(i as int),
                    zone,
                )[k],
            zone_people(entries@.take(i as int), zone).len() == people@.len(),
            forall|k: int|
                0 <= k < people@.len() ==> 0 <= #[trigger] source[k] < i && people@[k]@
                    == entries@[source[k]].0@ && entries@[source[k]].1 == zone,
            forall|a: int, b: int|
                0 <= a < b < people@.len() ==> (#[trigger] people@[a])@ != (
                #[trigger] people@[b])@,
        decreases entries@.len() - i,
    {
        let ghost t = entries@.take(i + 1);
        assert(t.drop_last() =~= entries@.take(i as int));
        assert(t.last() == entries@[i as int]);
        let ghost before = people@;
        let ghost before_source = source;
        if entries[i].1 == zone {
            people.push(&entries[i].0);
            proof {
                source = source.push(i as int);
                assert forall|a: int, b: int| 0 <= a < b < people@.len() implies (
                #[trigger] people@[a])@ != (#[trigger] people@[b])@ by {
                    if b < before.len() {
                        assert(before[a] == people@[a] && before[b] == people@[b]);
                    } else {
                        assert(before[a] == people@[a]);
                        assert(before_source[a] < i);
                        assert(entries@[before_source[a]].0@ != entries@[i as int].0@);
                    }
                }
                assert forall|k: int| 0 <= k < people@.len() implies 0 <= #[trigger] source[k] < i
                    + 1 && people@[k]@ == entries@[source[k]].0@ && entries@[source[k]].1
                    == zone by {
                    if k < before.len() {
                        assert(before[k] == people@[k]);
                        assert(before_source[k] == source[k]);
                    }
                }
            }
        }
        proof {
            assert forall|k: int| 0 <= k < people@.len() implies #[trigger] people@[k]@ == zone_people(
                t,
                zone,
            )[k] by {
                if k < before.len() {
                    assert(before[k] == people@[k]);
                }
            }
        }
        i = i + 1;
    }
    assert(entries@.take(entries@.len() as int) =~= entries@);
    let mut rng = thread_rng();
    let order = shuffled_positions(people.len(), &mut rng);
    let writes = fill_cells(cells, &people, &order);
    assert(drawn_writes(chart, zone, cells@, order@, writes@));
    proof {
        assert forall|q: int| 0 <= q < writes@.len() implies chart@.dom().contains(
            (#[trigger] writes@[q]).1@,
        ) && chart@[writes@[q].1@] == zone by {
            let p = order@[q] as int;
            let e = source[p];
            assert(chart@.dom().contains(entries@[e].0@));
        }
        assert forall|a: int, b: int| 0 <= a < b < writes@.len() implies (
        #[trigger] writes@[a]).1@ != (#[trigger] writes@[b]).1@ by {
            let pa = order@[a] as int;
            let pb = order@[b] as int;
            assert(pa != pb);
            if pa < pb {
                assert(people@[pa]@ != people@[pb]@);
            } else {
                assert(people@[pb]@ != people@[pa]@);
            }
        }
    }
    writes
}

/// The first cells of `cells`, one each, filled with the people at the
/// positions that `order` lists: cell `q` gets `people[order[q]]`, for as
/// many cells as there are people or cells, whichever is fewer.
pub fn fill_cells<'a>(cells: &[&'a str], people: &Vec<&String>, order: &Vec<usize>) -> (r: Vec<
    (&'a str, String),
>)
    requires
        order@.len() == people@.len(),
        forall|q: int| 0 <= q < order@.len() ==> #[trigger] order@[q] < people@.len(),
    ensures
        r@.len() == if people@.len() < cells@.len() {
            people@.len()
        } else {
            cells@.len()
        },
        forall|q: int|
            0 <= q < r@.len() ==> (#[trigger] r@[q]).0 == cells@[q] && r@[q].1@
                == people@[order@[q] as int]@,
{
    let count = if people.len() < cells.len() {
        people.len()
    } else {
        cells.len()
    };
    let mut writes: Vec<(&'a str, String)> = Vec::new();
    let mut k: usize = 0;
    while k < count
        invariant
            count <= people@.len(),
            count <= cells@.len(),
            count == if people@.len() < cells@.len() {
                people@.len()
            } else {
                cells@.len()
            },
            order@.len() == people@.len(),
            forall|q: int| 0 <= q < order@.len() ==> #[trigger] order@[q] < people@.len(),
            k <= count,
            writes@.len() == k,
            forall|q: int|
                0 <= q < k ==> (#[trigger] writes@[q]).0 == cells@[q] && writes@[q].1@
                    == people@[order@[q] as int]@,
        decreases count - k,
    {
        let person: &String = people[order[k]];
        writes.push((cells[k], person.clone()));
        k = k + 1;
    }
    writes
}

/// A generator made from a configuration's capacities gives each zone as
/// many seats as the zone has cells.
pub proof fn lemma_capacities_are_cell_counts(config: &ZoneCellConfig, z: Zone)
    ensures
        last_capacity(
            seq![
                (Zone::Zone1, config.zone1.len()),
                (Zone::Zone2a, config.zone2a.len()),
                (Zone::Zone2b, config.zone2b.len()),
                (Zone::Zone3, config.zone3.len()),
            ],
            z,
        ) == config.cells_of(z).len(),
{
    let s = seq![
        (Zone::Zone1, config.zone1.len()),
        (Zone::Zone2a, config.zone2a.len()),
        (Zone::Zone2b, config.zone2b.len()),
        (Zone::Zone3, config.zone3.len()),
    ];
    reveal_with_fuel(last_capacity, 5);
    assert(s.drop_last() =~= seq![
        (Zone::Zone1, config.zone1.len()),
        (Zone::Zone2a, config.zone2a.len()),
        (Zone::Zone2b, config.zone2b.len()),
    ]);
    assert(s.drop_last().drop_last() =~= seq![
        (Zone::Zone1, config.zone1.len()),
        (Zone::Zone2a, config.zone2a.len()),
    ]);
    assert(s.drop_last().drop_last().drop_last() =~= seq![
        (Zone::Zone1, config.zone1.len()),
    ]);
}

/// The values of a zone's filled cells, each with the zone.
pub open spec fn zone_values<'a>(z: Zone, writes: Seq<(&'a str, String)>) -> Seq<(Zone, String)> {
    writes.map_values(|w: (&'a str, String)| (z, w.1))
}

/// The (zone, value) pairs that reading the zone cells back gives, in the
/// order of `Zone::all()` and of each zone's cells, where `writes[j]` has
/// filled every cell of zone `j` and the cells are distinct.
pub open spec fn written_values<'a>(writes: Seq<Seq<(&'a str, String)>>) -> Seq<(Zone, String)> {
    zone_values(Zone::Zone1, writes[0]) + zone_values(Zone::Zone2a, writes[1]) + zone_values(
        Zone::Zone2b,
        writes[2],
    ) + zone_values(Zone::Zone3, writes[3])
}

/// Names that are their own trimmed form, not empty and distinct give a map
/// that holds exactly them, each with its zone.
proof fn lemma_cells_map_of_names(v: Seq<(Zone, String)>)
    requires
        forall|k: int| 0 <= k < v.len() ==> trimmed((#[trigger] v[k]).1@) == v[k].1@ && v[k].1@.len() > 0,
        forall|a: int, b: int| 0 <= a < b < v.len() ==> (#[trigger] v[a]).1@ != (#[trigger] v[b]).1@,
    ensures
        forall|k: int|
            0 <= k < v.len() ==> cells_map(v).dom().contains((#[trigger] v[k]).1@) && cells_map(v)[v[k].1@]
                == v[k].0,
        forall|x: Seq<char>| #[trigger]
            cells_map(v).dom().contains(x) ==> exists|k: int| 0 <= k < v.len() && v[k].1@ == x,
    decreases v.len(),
{
    if v.len() > 0 {
        let d = v.drop_last();
        assert forall|k: int| 0 <= k < d.len() implies trimmed((#[trigger] d[k]).1@) == d[k].1@
            && d[k].1@.len() > 0 by {
            assert(d[k] == v[k]);
        }
        assert forall|a: int, b: int| 0 <= a < b < d.len() implies (#[trigger] d[a]).1@ != (
        #[trigger] d[b]).1@ by {
            assert(d[a] == v[a] && d[b] == v[b]);
        }
        lemma_cells_map_of_names(d);
        let l = v.len() - 1;
        assert(v.last() == v[l]);
        assert(trimmed(v[l].1@) == v[l].1@ && v[l].1@.len() > 0);
        assert forall|k: int| 0 <= k < v.len() implies cells_map(v).dom().contains(
            (#[trigger] v[k]).1@,
        ) && cells_map(v)[v[k].1@] == v[k].0 by {
            if k < l {
                assert(d[k] == v[k]);
                assert(v[k].1@ != v[l].1@);
            }
        }
        assert forall|x: Seq<char>| #[trigger] cells_map(v).dom().contains(x) implies exists|k: int|
            0 <= k < v.len() && v[k].1@ == x by {
            assert(cells_map(v) == cells_map(d).insert(v[l].1@, v[l].0));
            if x != v[l].1@ {
                assert(cells_map(d).dom().contains(x));
                let k = choose|k: int| 0 <= k < d.len() && d[k].1@ == x;
                assert(v[k] == d[k]);
            } else {
                assert(v[l].1@ == x);
            }
        }
    }
}

/// Writing a chart whose zones are full into the template and reading the
/// zone cells back gives the chart again, where every name is its own
/// trimmed form and not empty: the values read, zone by zone, are the
/// names written, and they map each person to their zone.
pub proof fn lemma_written_chart_reads_back<'a>(
    config: &ZoneCellConfig<'a>,
    chart: &SeatingChart,
    writes: Seq<Seq<(&'a str, String)>>,
)
    requires
        names_distinct(chart.entries()),
        writes.len() == 4,
        forall|j: int|
            0 <= j < 4 ==> zone_writes_fit(
                chart,
                zone_at(j),
                config.cells_of(zone_at(j)),
                #[trigger] writes[j],
            ),
        forall|j: int|
            0 <= j < 4 ==> chart.count_in(zone_at(j)) == #[trigger] config.cells_of(zone_at(j)).len(),
        forall|p: Seq<char>|
            #[trigger] chart@.dom().contains(p) ==> trimmed(p) == p && p.len() > 0,
    ensures
        cells_map(written_values(writes)) == chart@,
{
    let v = written_values(writes);
    let w0 = zone_values(Zone::Zone1, writes[0]);
    let w1 = zone_values(Zone::Zone2a, writes[1]);
    let w2 = zone_values(Zone::Zone2b, writes[2]);
    let w3 = zone_values(Zone::Zone3, writes[3]);
    let o1 = w0.len() as int;
    let o2 = o1 + w1.len();
    let o3 = o2 + w2.len();
    assert(v.len() == o3 + w3.len());
    // Each value read is a person of the chart, in the zone of its cell.
    assert forall|k: int| 0 <= k < v.len() implies {
        let j = if k < o1 { 0int } else if k < o2 { 1int } else if k < o3 { 2int } else { 3int };
        let q = if k < o1 { k } else if k < o2 { k - o1 } else if k < o3 { k - o2 } else { k - o3 };
        &&& 0 <= q < writes[j].len()
        &&& (#[trigger] v[k]) == (zone_at(j), writes[j][q].1)
    } by {
        assert(zone_writes_fit(chart, zone_at(0), config.cells_of(zone_at(0)), writes[0]));
    }
    assert forall|k: int| 0 <= k < v.len() implies chart@.dom().contains((#[trigger] v[k]).1@)
        && chart@[v[k].1@] == v[k].0 by {
        let j = if k < o1 { 0int } else if k < o2 { 1int } else if k < o3 { 2int } else { 3int };
        let q = if k < o1 { k } else if k < o2 { k - o1 } else if k < o3 { k - o2 } else { k - o3 };
        assert(zone_writes_fit(chart, zone_at(j), config.cells_of(zone_at(j)), writes[j]));
        assert(v[k] == (zone_at(j), writes[j][q].1));
        assert(writes[j][q] == writes[j][q]);
    }
    assert forall|a: int, b: int| 0 <= a < b < v.len() implies (#[trigger] v[a]).1@ != (
    #[trigger] v[b]).1@ by {
        let ja = if a < o1 { 0int } else if a < o2 { 1int } else if a < o3 { 2int } else { 3int };
        let qa = if a < o1 { a } else if a < o2 { a - o1 } else if a < o3 { a - o2 } else { a - o3 };
        let jb = if b < o1 { 0int } else if b < o2 { 1int } else if b < o3 { 2int } else { 3int };
        let qb = if b < o1 { b } else if b < o2 { b - o1 } else if b < o3 { b - o2 } else { b - o3 };
        assert(v[a] == (zone_at(ja), writes[ja][qa].1));
        assert(v[b] == (zone_at(jb), writes[jb][qb].1));
        if ja == jb {
            assert(zone_writes_fit(chart, zone_at(ja), config.cells_of(zone_at(ja)), writes[ja]));
            assert(qa < qb);
            assert((#[trigger] writes[ja][qa]).1@ != (#[trigger] writes[ja][qb]).1@);
        } else {
            assert(chart@[v[a].1@] == zone_at(ja));
            assert(chart@[v[b].1@] == zone_at(jb));
        }
    }
    assert forall|k: int| 0 <= k < v.len() implies trimmed((#[trigger] v[k]).1@) == v[k].1@
        && v[k].1@.len() > 0 by {
        assert(chart@.dom().contains(v[k].1@));
    }
    lemma_cells_map_of_names(v);
    // Every person of the chart is read back: each zone's cells hold as
    // many distinct people of the zone as the zone has.
    lemma_pairs_map(chart.entries());
    assert forall|p: Seq<char>| #[trigger] chart@.dom().contains(p) implies cells_map(v).dom().contains(
        p,
    ) by {
        let z = chart@[p];
        let j = z.spec_index();
        assert(zone_at(j) == z);
        let wj = writes[j];
        assert(zone_writes_fit(chart, z, config.cells_of(z), wj));
        let s = Set::new(|x: Seq<char>| exists|q: int| 0 <= q < wj.len() && wj[q].1@ == x);
        let names = wj.map_values(|w: (&'a str, String)| w.1@);
        assert(s =~= names.to_set()) by {
            assert forall|x: Seq<char>| s.contains(x) implies names.to_set().contains(x) by {
                let q = choose|q: int| 0 <= q < wj.len() && wj[q].1@ == x;
                assert(names[q] == x);
            }
            assert forall|x: Seq<char>| names.to_set().contains(x) implies s.contains(x) by {
                let q = choose|q: int| 0 <= q < names.len() && names[q] == x;
                assert(wj[q].1@ == x);
            }
        }
        assert(names.no_duplicates()) by {
            assert forall|a: int, b: int| 0 <= a < names.len() && 0 <= b < names.len() && a != b implies names[a] != names[b] by {
                if a < b {
                    assert((#[trigger] wj[a]).1@ != (#[trigger] wj[b]).1@);
                } else {
                    assert((#[trigger] wj[b]).1@ != (#[trigger] wj[a]).1@);
                }
            }
        }
        names.unique_seq_to_set();
        vstd::seq_lib::seq_to_set_is_finite(names);
        lemma_zone_members_count(chart.entries(), z);
        let members = zone_members(chart@, z);
        assert(s.subset_of(members)) by {
            assert forall|x: Seq<char>| s.contains(x) implies members.contains(x) by {
                let q = choose|q: int| 0 <= q < wj.len() && wj[q].1@ == x;
                assert(chart@.dom().contains((#[trigger] wj[q]).1@));
            }
        }
        assert(chart.count_in(zone_at(j)) == config.cells_of(zone_at(j)).len());
        vstd::set_lib::lemma_subset_equality(s, members);
        assert(members.contains(p));
        let q = choose|q: int| 0 <= q < wj.len() && wj[q].1@ == p;
        let k = if j == 0 { q } else if j == 1 { o1 + q } else if j == 2 { o2 + q } else { o3 + q };
        assert(v[k] == (zone_at(j), writes[j][q].1));
        assert(cells_map(v).dom().contains(v[k].1@));
    }
    assert(cells_map(v) =~= chart@) by {
        assert forall|x: Seq<char>| cells_map(v).dom().contains(x) implies chart@.dom().contains(x) by {
            let k = choose|k: int| 0 <= k < v.len() && v[k].1@ == x;
            assert(chart@.dom().contains(v[k].1@));
        }
        assert forall|x: Seq<char>| #[trigger] cells_map(v).dom().contains(x) implies cells_map(v)[x]
            == chart@[x] by {
            let k = choose|k: int| 0 <= k < v.len() && v[k].1@ == x;
            assert(chart@[v[k].1@] == v[k].0);
        }
    }
}

} // verus!
