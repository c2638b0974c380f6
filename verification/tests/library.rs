use seat_generator::chart::SeatingChart;
use seat_generator::config::Config;
use seat_generator::excel_io::{chart_from_cells, zone_writes, ZoneCellConfig};
use seat_generator::generator::{GenerateError, Generator, MAX_ATTEMPTS};
use seat_generator::gui::{generate_chart, GenerationAction, GenerationEvent, SeatGeneratorApp};
use seat_generator::text::{decimal_text, same_text, text_precedes, trim_text};
use seat_generator::zone::Zone;

fn chart(data: Vec<(&str, Zone)>) -> SeatingChart {
    SeatingChart::new(data.into_iter().map(|(n, z)| (n.to_string(), z)).collect())
}

#[test]
fn zone_all_lists_every_zone_in_order() {
    assert_eq!(
        Zone::all(),
        [Zone::Zone1, Zone::Zone2a, Zone::Zone2b, Zone::Zone3]
    );
    assert_eq!(Zone::Zone2b.index(), 2);
    assert!(Zone::Zone2a.in_zone2());
    assert!(!Zone::Zone3.in_zone2());
}

#[test]
fn allowed_zones_follow_the_rules() {
    let g = Generator::new(vec![]);
    assert_eq!(
        g.allowed_zones(None, None),
        vec![Zone::Zone3, Zone::Zone1, Zone::Zone2a, Zone::Zone2b]
    );
    assert_eq!(
        g.allowed_zones(Some(Zone::Zone1), None),
        vec![Zone::Zone3, Zone::Zone2a, Zone::Zone2b]
    );
    assert_eq!(
        g.allowed_zones(Some(Zone::Zone2a), Some(Zone::Zone3)),
        vec![Zone::Zone3, Zone::Zone1, Zone::Zone2b]
    );
    assert_eq!(
        g.allowed_zones(Some(Zone::Zone2a), Some(Zone::Zone2b)),
        vec![Zone::Zone3, Zone::Zone1]
    );
    assert_eq!(
        g.allowed_zones(Some(Zone::Zone3), Some(Zone::Zone2a)),
        vec![Zone::Zone3, Zone::Zone1, Zone::Zone2a, Zone::Zone2b]
    );
    assert_eq!(
        g.allowed_zones(None, Some(Zone::Zone2a)),
        vec![Zone::Zone3, Zone::Zone1, Zone::Zone2a, Zone::Zone2b]
    );
}

#[test]
fn generator_capacities_later_pairs_win() {
    let g = Generator::new(vec![(Zone::Zone1, 3), (Zone::Zone3, 2), (Zone::Zone1, 5)]);
    assert_eq!(g.capacity_of(Zone::Zone1), 5);
    assert_eq!(g.capacity_of(Zone::Zone3), 2);
    assert_eq!(g.capacity_of(Zone::Zone2a), 0);
    assert_eq!(g.total_capacity_of(), 7);
}

#[test]
fn total_capacity_does_not_overflow() {
    let g = Generator::new(vec![
        (Zone::Zone1, usize::MAX),
        (Zone::Zone2a, usize::MAX),
        (Zone::Zone2b, usize::MAX),
        (Zone::Zone3, usize::MAX),
    ]);
    assert_eq!(g.total_capacity_of(), 4 * (usize::MAX as u128));
    let c = chart(vec![("p0", Zone::Zone3)]);
    match g.generate(&c, &c) {
        Err(GenerateError::CapacityMismatch { people, capacity }) => {
            assert_eq!(people, 1);
            assert_eq!(capacity, 4 * (usize::MAX as u128));
        }
        other => panic!("unexpected {:?}", other),
    }
}

#[test]
fn chart_new_later_pair_replaces_earlier() {
    let c = chart(vec![("ann", Zone::Zone1), ("bob", Zone::Zone2a), ("ann", Zone::Zone3)]);
    assert_eq!(c.get("ann"), Some(Zone::Zone3));
    assert_eq!(c.get("bob"), Some(Zone::Zone2a));
    assert_eq!(c.get("carl"), None);
    assert_eq!(c.assignments().len(), 2);
    let copy = c.clone();
    assert_eq!(copy.get("ann"), Some(Zone::Zone3));
}

#[test]
fn people_are_sorted_like_strings() {
    let c = chart(vec![
        ("bob", Zone::Zone1),
        ("Zoe", Zone::Zone1),
        ("émile", Zone::Zone3),
        ("alice", Zone::Zone2a),
        ("al", Zone::Zone2b),
    ]);
    let people = c.people();
    let mut expected: Vec<String> = vec!["bob", "Zoe", "émile", "alice", "al"]
        .into_iter()
        .map(|s| s.to_string())
        .collect();
    expected.sort();
    assert_eq!(people, expected);
    assert_eq!(people, vec!["Zoe", "al", "alice", "bob", "émile"]);
}

#[test]
fn text_order_and_equality() {
    assert!(text_precedes("al", "alice"));
    assert!(!text_precedes("alice", "al"));
    assert!(!text_precedes("bob", "bob"));
    assert!(text_precedes("Zed", "abe"));
    assert!(text_precedes("z", "é"));
    assert!(same_text("héllo", "héllo"));
    assert!(!same_text("hello", "hell"));
}

#[test]
fn decimal_text_writes_numbers() {
    assert_eq!(decimal_text(0), "0");
    assert_eq!(decimal_text(7), "7");
    assert_eq!(decimal_text(1203), "1203");
    assert_eq!(decimal_text(u128::MAX), u128::MAX.to_string());
}

#[test]
fn generate_error_kinds_and_messages() {
    let g = Generator::new(vec![(Zone::Zone3, 1)]);
    let empty = chart(vec![]);
    let e = g.generate(&empty, &empty).unwrap_err();
    assert!(matches!(e, GenerateError::NoPeople));
    assert_eq!(e.message(), "no people to assign");

    let two = chart(vec![("p0", Zone::Zone3), ("p1", Zone::Zone3)]);
    let e = g.generate(&two, &empty).unwrap_err();
    assert!(matches!(
        e,
        GenerateError::CapacityMismatch { people: 2, capacity: 1 }
    ));
    assert_eq!(
        e.message(),
        "people count (2) does not match total capacity (1)"
    );

    let g = Generator::new(vec![(Zone::Zone1, 1)]);
    let recent = chart(vec![("p0", Zone::Zone1)]);
    let e = g.generate(&recent, &empty).unwrap_err();
    assert!(matches!(e, GenerateError::AttemptsExhausted));
    assert_eq!(
        e.message(),
        "failed to generate a valid seating chart after max attempts"
    );
    assert_eq!(MAX_ATTEMPTS, 200);

    let e = GenerateError::NoAllowedZones { person: "ann".to_string() };
    assert_eq!(e.message(), "person ann has no allowed zones");
}

#[test]
fn people_named_twice_are_counted_once() {
    let g = Generator::new(vec![(Zone::Zone3, 2)]);
    let recent = chart(vec![("p0", Zone::Zone3), ("p1", Zone::Zone3)]);
    let prev = chart(vec![("p1", Zone::Zone3), ("p0", Zone::Zone3)]);
    let result = g.generate(&recent, &prev).unwrap();
    assert_eq!(result.people(), vec!["p0", "p1"]);
}

#[test]
fn generated_chart_fills_every_zone() {
    let g = Generator::new(vec![
        (Zone::Zone1, 1),
        (Zone::Zone2a, 1),
        (Zone::Zone2b, 1),
        (Zone::Zone3, 2),
    ]);
    let recent = chart(vec![
        ("a", Zone::Zone1),
        ("b", Zone::Zone2a),
        ("c", Zone::Zone2b),
        ("d", Zone::Zone3),
    ]);
    let prev = chart(vec![("e", Zone::Zone2a), ("b", Zone::Zone2b)]);
    for _ in 0..20 {
        let result = g.generate(&recent, &prev).unwrap();
        assert_eq!(result.assignments().len(), 5);
        for z in Zone::all() {
            let n = result.assignments().iter().filter(|(_, w)| *w == z).count();
            assert_eq!(n, g.capacity_of(z));
        }
        assert_ne!(result.get("a"), Some(Zone::Zone1));
        assert!(!matches!(result.get("b"), Some(Zone::Zone2a | Zone::Zone2b)));
        assert_ne!(result.get("c"), Some(Zone::Zone2b));
    }
}

#[test]
fn generate_respects_rules_and_capacity() {
    let g = Generator::new(vec![(Zone::Zone3, 1), (Zone::Zone1, 1)]);
    let recent = chart(vec![("a", Zone::Zone1), ("b", Zone::Zone3)]);
    let prev = chart(vec![]);
    for _ in 0..50 {
        let result = g.generate(&recent, &prev).unwrap();
        assert_eq!(result.get("a"), Some(Zone::Zone3));
        assert_eq!(result.get("b"), Some(Zone::Zone1));
    }
}

#[test]
fn generate_fails_when_no_draw_can_seat_everyone() {
    let g = Generator::new(vec![(Zone::Zone3, 1), (Zone::Zone1, 1)]);
    let recent = chart(vec![("a", Zone::Zone1), ("b", Zone::Zone1)]);
    let prev = chart(vec![]);
    for _ in 0..5 {
        assert!(matches!(
            g.generate(&recent, &prev),
            Err(GenerateError::AttemptsExhausted)
        ));
    }
}

#[test]
fn template_cells_mark_zones() {
    let cells: Vec<(String, String)> = vec![
        ("A1", "1"),
        ("B1", " 2a "),
        ("C1", "x"),
        ("D1", "3"),
        ("E1", "2b"),
        ("F1", "1"),
        ("G1", "2A"),
    ]
    .into_iter()
    .map(|(a, b)| (a.to_string(), b.to_string()))
    .collect();
    let config = ZoneCellConfig::from_template_cells(&cells);
    assert_eq!(config.zone1, vec!["A1", "F1"]);
    assert_eq!(config.zone2a, vec!["B1"]);
    assert_eq!(config.zone2b, vec!["E1"]);
    assert_eq!(config.zone3, vec!["D1"]);
    assert_eq!(
        config.to_capacities(),
        vec![
            (Zone::Zone1, 2),
            (Zone::Zone2a, 1),
            (Zone::Zone2b, 1),
            (Zone::Zone3, 1)
        ]
    );
    let zones = config.all_zones();
    assert_eq!(zones[0].0, Zone::Zone1);
    assert_eq!(zones[0].1, &["A1", "F1"][..]);
    assert_eq!(zones[3].1, &["D1"][..]);
    let g = Generator::new(config.to_capacities());
    assert_eq!(g.capacity_of(Zone::Zone1), 2);
}

#[test]
fn cells_are_trimmed_and_empty_ones_skipped() {
    let values = vec![
        (Zone::Zone1, " Ann ".to_string()),
        (Zone::Zone2a, "".to_string()),
        (Zone::Zone2b, "   ".to_string()),
        (Zone::Zone3, "Bob".to_string()),
        (Zone::Zone3, "Ann\t".to_string()),
    ];
    let c = chart_from_cells(&values);
    assert_eq!(c.get("Ann"), Some(Zone::Zone3));
    assert_eq!(c.get("Bob"), Some(Zone::Zone3));
    assert_eq!(c.assignments().len(), 2);
}

#[test]
fn writes_fill_the_first_cells() {
    let c = chart(vec![
        ("a", Zone::Zone1),
        ("b", Zone::Zone1),
        ("c", Zone::Zone1),
        ("d", Zone::Zone3),
    ]);
    let w = zone_writes(&c, Zone::Zone1, &["A1", "B1"]);
    assert_eq!(w.len(), 2);
    assert_eq!(w[0].0, "A1");
    assert_eq!(w[1].0, "B1");
    assert_ne!(w[0].1, w[1].1);
    for (_, p) in &w {
        assert_eq!(c.get(p), Some(Zone::Zone1));
    }
    let w = zone_writes(&c, Zone::Zone3, &["A3", "B3", "C3"]);
    assert_eq!(w, vec![("A3", "d".to_string())]);

    let cells: Vec<(String, String)> = vec![("A1", "1"), ("B1", "1"), ("A3", "3")]
        .into_iter()
        .map(|(a, b)| (a.to_string(), b.to_string()))
        .collect();
    let config = ZoneCellConfig::from_template_cells(&cells);
    let all = config.chart_writes(&c);
    assert_eq!(all.len(), 4);
    assert_eq!(all[0].len(), 2);
    assert!(all[1].is_empty());
    assert!(all[2].is_empty());
    assert_eq!(all[3], vec![("A3", "d".to_string())]);
}

#[test]
fn config_default_is_empty() {
    let c = Config::default();
    assert!(c.template_path.is_empty());
    assert!(c.history1_path.is_empty());
    assert!(c.history2_path.is_empty());
    assert!(c.output_path.is_empty());
}

fn app() -> SeatGeneratorApp {
    SeatGeneratorApp::new(Config {
        template_path: "t.xlsx".to_string(),
        history1_path: "h1.xlsx".to_string(),
        history2_path: "h2.xlsx".to_string(),
        output_path: "out.xlsx".to_string(),
    })
}

#[test]
fn generation_run_succeeds_step_by_step() {
    let mut a = app();
    assert_eq!(a.status, "Ready");
    assert!(!a.status_is_error);
    assert!(matches!(
        a.run_generation(GenerationEvent::Start),
        GenerationAction::ReadTemplate(p) if p == "t.xlsx"
    ));
    assert!(matches!(
        a.run_generation(GenerationEvent::TemplateRead(Ok(()))),
        GenerationAction::ReadHistory1(p) if p == "h1.xlsx"
    ));
    assert!(matches!(
        a.run_generation(GenerationEvent::History1Read(Ok(()))),
        GenerationAction::ReadHistory2(p) if p == "h2.xlsx"
    ));
    assert!(matches!(
        a.run_generation(GenerationEvent::History2Read(Ok(()))),
        GenerationAction::Generate
    ));
    assert!(matches!(
        a.run_generation(GenerationEvent::Generated(Ok(()))),
        GenerationAction::WriteOutput { template, output } if template == "t.xlsx" && output == "out.xlsx"
    ));
    assert_eq!(a.status, "Ready");
    match a.run_generation(GenerationEvent::OutputWritten(Ok(()))) {
        GenerationAction::SaveConfig(c) => {
            assert_eq!(c.template_path, "t.xlsx");
            assert_eq!(c.history1_path, "h1.xlsx");
            assert_eq!(c.history2_path, "h2.xlsx");
            assert_eq!(c.output_path, "out.xlsx");
        }
        other => panic!("unexpected {:?}", other),
    }
    assert_eq!(a.status, "Done -> out.xlsx");
    assert!(!a.status_is_error);
}

#[test]
fn generation_run_reports_each_failure() {
    let mut a = app();
    a.history2_path.clear();
    assert!(matches!(
        a.run_generation(GenerationEvent::Start),
        GenerationAction::Stop
    ));
    assert_eq!(a.status, "Error: all four file paths must be specified");
    assert!(a.status_is_error);

    let cases: Vec<(GenerationEvent, &str)> = vec![
        (
            GenerationEvent::TemplateRead(Err("bad".to_string())),
            "Failed to read template: bad",
        ),
        (
            GenerationEvent::History1Read(Err("bad".to_string())),
            "Failed to read history 1: bad",
        ),
        (
            GenerationEvent::History2Read(Err("bad".to_string())),
            "Failed to read history 2: bad",
        ),
        (
            GenerationEvent::Generated(Err(GenerateError::NoPeople)),
            "Generation failed: no people to assign",
        ),
        (
            GenerationEvent::OutputWritten(Err("bad".to_string())),
            "Failed to write output: bad",
        ),
    ];
    for (event, text) in cases {
        let mut a = app();
        assert!(matches!(a.run_generation(event), GenerationAction::Stop));
        assert_eq!(a.status, text);
        assert!(a.status_is_error);
    }
    let a = app();
    let c = a.save_config();
    assert_eq!(c.output_path, "out.xlsx");
}

#[test]
fn available_zones_keep_free_ones_in_order() {
    let allowed = vec![Zone::Zone3, Zone::Zone1, Zone::Zone2b];
    assert_eq!(
        Generator::available_zones(&allowed, &vec![0, 1, 2, 1]),
        vec![Zone::Zone3, Zone::Zone2b]
    );
    assert_eq!(
        Generator::available_zones(&allowed, &vec![1, 0]),
        vec![Zone::Zone1]
    );
    assert!(Generator::available_zones(&allowed, &vec![]).is_empty());
}

#[test]
fn random_order_varies_between_attempts() {
    let c = chart(vec![("a", Zone::Zone1), ("b", Zone::Zone1), ("c", Zone::Zone1)]);
    let mut first_people = std::collections::HashSet::new();
    for _ in 0..200 {
        let w = zone_writes(&c, Zone::Zone1, &["A1"]);
        first_people.insert(w[0].1.clone());
    }
    assert!(first_people.len() > 1);
}

#[test]
fn random_zone_choice_varies_between_attempts() {
    let g = Generator::new(vec![(Zone::Zone1, 1), (Zone::Zone3, 1)]);
    let recent = chart(vec![("a", Zone::Zone3), ("b", Zone::Zone3)]);
    let prev = chart(vec![]);
    let mut seen = std::collections::HashSet::new();
    for _ in 0..200 {
        seen.insert(g.generate(&recent, &prev).unwrap().get("a"));
    }
    assert_eq!(seen.len(), 2);
}

#[test]
fn trim_text_matches_str_trim() {
    let samples = [
        "",
        "   ",
        " Ann ",
        "\tBob\n",
        "\u{3000}Chen Li\u{a0}",
        "\u{2028}x y\u{205f}",
        "a\u{200b}",
        "inner  space",
    ];
    for s in samples {
        assert_eq!(trim_text(s), s.trim());
    }
    assert_eq!(trim_text("\u{3000}Chen Li\u{a0}"), "Chen Li");
}

#[test]
fn generate_succeeds_where_every_draw_seats_everyone() {
    // Neither may keep their Zone 2 seat; whoever goes first takes Zone 3
    // or Zone 1, and the other one takes the zone left.
    let g = Generator::new(vec![(Zone::Zone1, 1), (Zone::Zone3, 1)]);
    let recent = chart(vec![("p", Zone::Zone2a), ("q", Zone::Zone2b)]);
    let prev = chart(vec![]);
    let mut seen = std::collections::HashSet::new();
    for _ in 0..100 {
        let result = g.generate(&recent, &prev).unwrap();
        let (p, q) = (result.get("p").unwrap(), result.get("q").unwrap());
        assert_ne!(p, q);
        assert!(matches!(p, Zone::Zone1 | Zone::Zone3));
        assert!(matches!(q, Zone::Zone1 | Zone::Zone3));
        seen.insert(p);
    }
    assert_eq!(seen.len(), 2);
}

#[test]
fn generate_fails_where_someone_has_no_seats() {
    let g = Generator::new(vec![(Zone::Zone3, 1), (Zone::Zone1, 1)]);
    let recent = chart(vec![("a", Zone::Zone3), ("b", Zone::Zone1)]);
    let prev = chart(vec![("b", Zone::Zone3)]);
    assert!(g.generate(&recent, &prev).is_ok());
    let g = Generator::new(vec![(Zone::Zone1, 2)]);
    let recent = chart(vec![("a", Zone::Zone3), ("b", Zone::Zone1)]);
    assert!(matches!(
        g.generate(&recent, &prev),
        Err(GenerateError::AttemptsExhausted)
    ));
}

#[test]
fn generate_chart_takes_history_one_as_most_recent() {
    let cells: Vec<(String, String)> = vec![("A1", "1"), ("A2", "3")]
        .into_iter()
        .map(|(a, b)| (a.to_string(), b.to_string()))
        .collect();
    let config = ZoneCellConfig::from_template_cells(&cells);
    let history1 = chart(vec![("a", Zone::Zone1), ("b", Zone::Zone3)]);
    let history2 = chart(vec![("a", Zone::Zone3), ("b", Zone::Zone1)]);
    for _ in 0..20 {
        let result = generate_chart(&config, &history1, &history2).unwrap();
        assert_eq!(result.get("a"), Some(Zone::Zone3));
        assert_eq!(result.get("b"), Some(Zone::Zone1));
        let swapped = generate_chart(&config, &history2, &history1).unwrap();
        assert_eq!(swapped.get("a"), Some(Zone::Zone1));
        assert_eq!(swapped.get("b"), Some(Zone::Zone3));
    }
    let empty: Vec<(String, String)> = Vec::new();
    let config = ZoneCellConfig::from_template_cells(&empty);
    assert!(matches!(
        generate_chart(&config, &history1, &history2),
        Err(GenerateError::CapacityMismatch { people: 2, capacity: 0 })
    ));
}

#[test]
fn fill_cells_follows_order() {
    let (a, b, c) = ("a".to_string(), "b".to_string(), "c".to_string());
    let people = vec![&a, &b, &c];
    let w = seat_generator::excel_io::fill_cells(&["X1", "X2"], &people, &vec![2, 0, 1]);
    assert_eq!(w, vec![("X1", "c".to_string()), ("X2", "a".to_string())]);
    let w = seat_generator::excel_io::fill_cells(&["X1", "X2", "X3", "X4"], &people, &vec![1, 2, 0]);
    assert_eq!(w.len(), 3);
}

#[test]
fn generate_succeeds_where_everyone_has_a_reserved_seat() {
    let g = Generator::new(vec![(Zone::Zone2a, 1), (Zone::Zone2b, 1)]);
    let recent = chart(vec![("p0", Zone::Zone2a), ("p1", Zone::Zone2b)]);
    let prev = chart(vec![("p0", Zone::Zone3), ("p1", Zone::Zone3)]);
    for _ in 0..50 {
        let result = g.generate(&recent, &prev).unwrap();
        assert_eq!(result.get("p0"), Some(Zone::Zone2b));
        assert_eq!(result.get("p1"), Some(Zone::Zone2a));
    }
}

#[test]
fn written_chart_reads_back() {
    let cells: Vec<(String, String)> = vec![("A1", "1"), ("B1", "1"), ("A2", "2a"), ("A3", "3")]
        .into_iter()
        .map(|(a, b)| (a.to_string(), b.to_string()))
        .collect();
    let config = ZoneCellConfig::from_template_cells(&cells);
    let c = chart(vec![
        ("ann", Zone::Zone1),
        ("bob", Zone::Zone2a),
        ("cy", Zone::Zone1),
        ("dee", Zone::Zone3),
    ]);
    let writes = config.chart_writes(&c);
    let mut sheet = std::collections::HashMap::new();
    for w in &writes {
        for (cell, person) in w {
            sheet.insert(cell.to_string(), person.clone());
        }
    }
    let mut values = Vec::new();
    for (zone, refs) in config.all_zones().iter() {
        for r in refs.iter() {
            values.push((*zone, sheet.get(*r).cloned().unwrap_or_default()));
        }
    }
    let back = chart_from_cells(&values);
    assert_eq!(back.people(), c.people());
    for p in c.people() {
        assert_eq!(back.get(&p), c.get(&p));
    }
}
