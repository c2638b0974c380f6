use std::collections::HashMap;

use seat_generator::chart::SeatingChart;
use seat_generator::generator::Generator;
use seat_generator::zone::Zone;

fn id(s: &str) -> String {
    s.to_string()
}

fn make_chart(data: Vec<(&str, Zone)>) -> SeatingChart {
    SeatingChart::new(data.into_iter().map(|(n, z)| (id(n), z)).collect())
}

fn default_capacities() -> Vec<(Zone, usize)> {
    vec![
        (Zone::Zone1, 2),
        (Zone::Zone2a, 2),
        (Zone::Zone2b, 2),
        (Zone::Zone3, 4),
    ]
}

#[test]
fn test_empty_charts() {
    let g = Generator::new(default_capacities());
    let empty = SeatingChart::new(Vec::new());
    assert!(g.generate(&empty, &empty).is_err());
}

#[test]
fn test_capacity_mismatch() {
    let g = Generator::new(vec![(Zone::Zone3, 1)]);
    let chart = make_chart(vec![("p0", Zone::Zone3), ("p1", Zone::Zone3)]);
    assert!(g.generate(&chart, &chart).is_err());
}

#[test]
fn test_no_solution_possible() {
    let g = Generator::new(vec![
        (Zone::Zone1, 1),
        (Zone::Zone2a, 0),
        (Zone::Zone2b, 0),
        (Zone::Zone3, 0),
    ]);
    let recent = make_chart(vec![("p0", Zone::Zone1)]);
    let prev = make_chart(vec![("p0", Zone::Zone3)]);
    assert!(g.generate(&recent, &prev).is_err());
}

#[test]
fn test_zone1_no_consecutive() {
    let g = Generator::new(vec![
        (Zone::Zone1, 1),
        (Zone::Zone2a, 0),
        (Zone::Zone2b, 0),
        (Zone::Zone3, 1),
    ]);
    let recent = make_chart(vec![("p0", Zone::Zone1), ("p1", Zone::Zone3)]);
    let prev = make_chart(vec![("p0", Zone::Zone3), ("p1", Zone::Zone3)]);
    let result = g.generate(&recent, &prev).unwrap();
    assert_ne!(result.get("p0"), Some(Zone::Zone1));
}

#[test]
fn test_zone2_individual_no_consecutive() {
    let g = Generator::new(vec![
        (Zone::Zone1, 0),
        (Zone::Zone2a, 1),
        (Zone::Zone2b, 1),
        (Zone::Zone3, 0),
    ]);
    let recent = make_chart(vec![("p0", Zone::Zone2a), ("p1", Zone::Zone2b)]);
    let prev = make_chart(vec![("p0", Zone::Zone3), ("p1", Zone::Zone3)]);
    let result = g.generate(&recent, &prev).unwrap();
    assert_ne!(result.get("p0"), Some(Zone::Zone2a));
    assert_ne!(result.get("p1"), Some(Zone::Zone2b));
}

#[test]
fn test_zone2_combined_two_consecutive() {
    let g = Generator::new(vec![
        (Zone::Zone1, 1),
        (Zone::Zone2a, 0),
        (Zone::Zone2b, 0),
        (Zone::Zone3, 0),
    ]);
    let recent = make_chart(vec![("p0", Zone::Zone2b)]);
    let prev = make_chart(vec![("p0", Zone::Zone2a)]);
    let result = g.generate(&recent, &prev).unwrap();
    assert!(!matches!(
        result.get("p0"),
        Some(Zone::Zone2a | Zone::Zone2b)
    ));
}

#[test]
fn test_zone2_one_consecutive_allowed() {
    let g = Generator::new(vec![
        (Zone::Zone1, 0),
        (Zone::Zone2a, 1),
        (Zone::Zone2b, 1),
        (Zone::Zone3, 0),
    ]);
    let recent = make_chart(vec![("p0", Zone::Zone2a), ("p1", Zone::Zone2b)]);
    let prev = make_chart(vec![("p0", Zone::Zone3), ("p1", Zone::Zone3)]);
    let result = g.generate(&recent, &prev).unwrap();
    assert_ne!(result.get("p0"), Some(Zone::Zone2a));
    assert_ne!(result.get("p1"), Some(Zone::Zone2b));
}

#[test]
fn test_zone3_always_allowed() {
    let g = Generator::new(vec![
        (Zone::Zone1, 0),
        (Zone::Zone2a, 0),
        (Zone::Zone2b, 0),
        (Zone::Zone3, 1),
    ]);
    let recent = make_chart(vec![("p0", Zone::Zone3)]);
    let prev = make_chart(vec![("p0", Zone::Zone3)]);
    let result = g.generate(&recent, &prev).unwrap();
    assert_eq!(result.get("p0"), Some(Zone::Zone3));
}

#[test]
fn test_full_generation_is_valid() {
    let g = Generator::new(default_capacities());

    let recent = make_chart(vec![
        ("p0", Zone::Zone1),
        ("p1", Zone::Zone1),
        ("p2", Zone::Zone2a),
        ("p3", Zone::Zone2a),
        ("p4", Zone::Zone2b),
        ("p5", Zone::Zone2b),
        ("p6", Zone::Zone3),
        ("p7", Zone::Zone3),
        ("p8", Zone::Zone3),
        ("p9", Zone::Zone3),
    ]);

    let prev = make_chart(vec![
        ("p0", Zone::Zone3),
        ("p1", Zone::Zone3),
        ("p2", Zone::Zone3),
        ("p3", Zone::Zone3),
        ("p4", Zone::Zone3),
        ("p5", Zone::Zone3),
        ("p6", Zone::Zone1),
        ("p7", Zone::Zone2a),
        ("p8", Zone::Zone2b),
        ("p9", Zone::Zone3),
    ]);

    let result = g.generate(&recent, &prev).unwrap();

    assert_eq!(result.assignments().len(), 10);

    let mut zone_counts = HashMap::new();
    for (_, zone) in result.assignments() {
        *zone_counts.entry(*zone).or_insert(0) += 1;
    }
    assert_eq!(zone_counts.get(&Zone::Zone1).copied().unwrap_or(0), 2);
    assert_eq!(zone_counts.get(&Zone::Zone2a).copied().unwrap_or(0), 2);
    assert_eq!(zone_counts.get(&Zone::Zone2b).copied().unwrap_or(0), 2);
    assert_eq!(zone_counts.get(&Zone::Zone3).copied().unwrap_or(0), 4);

    for (person, zone) in result.assignments() {
        let prev1 = recent.get(person);
        let prev2 = prev.get(person);

        match zone {
            Zone::Zone1 => {
                assert_ne!(
                    prev1,
                    Some(Zone::Zone1),
                    "person {} violated Zone1 consecutive rule",
                    person
                );
            }
            Zone::Zone2a => {
                assert_ne!(
                    prev1,
                    Some(Zone::Zone2a),
                    "person {} violated Zone2a consecutive rule",
                    person
                );
                if let (Some(p1), Some(p2)) = (prev1, prev2) {
                    let p1_in_2 = matches!(p1, Zone::Zone2a | Zone::Zone2b);
                    let p2_in_2 = matches!(p2, Zone::Zone2a | Zone::Zone2b);
                    assert!(
                        !(p1_in_2 && p2_in_2),
                        "person {} violated combined Zone2 consecutive rule",
                        person
                    );
                }
            }
            Zone::Zone2b => {
                assert_ne!(
                    prev1,
                    Some(Zone::Zone2b),
                    "person {} violated Zone2b consecutive rule",
                    person
                );
                if let (Some(p1), Some(p2)) = (prev1, prev2) {
                    let p1_in_2 = matches!(p1, Zone::Zone2a | Zone::Zone2b);
                    let p2_in_2 = matches!(p2, Zone::Zone2a | Zone::Zone2b);
                    assert!(
                        !(p1_in_2 && p2_in_2),
                        "person {} violated combined Zone2 consecutive rule",
                        person
                    );
                }
            }
            Zone::Zone3 => {}
        }
    }
}

#[test]
fn test_new_person_in_previous_only() {
    let g = Generator::new(vec![
        (Zone::Zone1, 1),
        (Zone::Zone2a, 0),
        (Zone::Zone2b, 0),
        (Zone::Zone3, 0),
    ]);
    let recent = make_chart(vec![]);
    let prev = make_chart(vec![("p0", Zone::Zone1)]);
    let result = g.generate(&recent, &prev).unwrap();
    assert_eq!(result.get("p0"), Some(Zone::Zone1));
}
