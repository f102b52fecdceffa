use flight_network_planner::config::Config;
use flight_network_planner::flight::{Flight, PlanParseError};
use flight_network_planner::flight_data::{FlightData, FlightDataFlight, PreprocessError};
use flight_network_planner::flight_type::FlightType;
use flight_network_planner::flight_utils::FlightUtils;
use flight_network_planner::fng::FlightNumberGenerator;
use flight_network_planner::gate::{Gate, PartialGate, parse_gate_file};
use flight_network_planner::gate_keys::{gate_keys, gate_keys_string};
use flight_network_planner::lists::{contains_str, find_key};
use flight_network_planner::run::{run, RunError};
use flight_network_planner::stats::get_stats;
use flight_network_planner::text::{split_chars, trim, push_decimal, push_signed_decimal};

fn s(x: &str) -> String {
    x.to_string()
}

fn gate(a: &str, c: &str, size: &str) -> Gate {
    Gate { airport: s(a), code: s(c), size: s(size) }
}

fn config(gates: Vec<Gate>) -> Config {
    Config {
        airline_name: s("Astrella"),
        ignored_airlines: vec![],
        hubs: vec![],
        hub_threshold: 3,
        range_h2h: vec![(1, 99)],
        range_n2n: vec![(300, 399)],
        range_h2n: vec![],
        both_dir_same_num: false,
        gate_file: None,
        gates_by_airport: vec![],
        hard_max_hub: 10,
        hard_max_nonhub: 5,
        max_h2h: 5,
        max_h2n_hub: 5,
        max_h2n_nonhub: 5,
        max_n2n: 5,
        restricted_between: vec![],
        restricted_to: vec![],
        no_dupes: vec![],
        preferred_between: vec![],
        preferred_to: vec![],
        gate_allowed_dests: vec![],
        gate_denied_dests: vec![],
        max_dests_per_gate: vec![],
        gates,
    }
}

fn data(flights: Vec<(&str, &str, &str)>) -> FlightData {
    FlightData {
        flights: flights
            .into_iter()
            .map(|(airline, from, to)| FlightDataFlight {
                airline: s(airline),
                flight_number: s("1"),
                from_airport: s(from),
                to_airport: s(to),
            })
            .collect(),
        old_world_airports: vec![],
        new_world_airports: vec![],
        timestamp: 0,
    }
}

fn flight(n: u16, a1: (&str, &str), a2: (&str, &str), size: &str, score: i8, ty: FlightType) -> Flight {
    Flight {
        number: n,
        airport1: (s(a1.0), s(a1.1)),
        airport2: (s(a2.0), s(a2.1)),
        size: s(size),
        score,
        ty,
    }
}

fn chars(x: &str) -> Vec<char> {
    x.chars().collect()
}

// ---------- route kinds and scores ----------

#[test]
fn flight_type_scores() {
    assert_eq!(FlightType::NonExistingH2H.score(), 6);
    assert_eq!(FlightType::ExistingH2H.score(), 5);
    assert_eq!(FlightType::NonExistingH2N.score(), 3);
    assert_eq!(FlightType::NonExistingN2N.score(), 2);
    assert_eq!(FlightType::ExistingH2N.score(), 1);
    assert_eq!(FlightType::ExistingN2N.score(), -1);
}

#[test]
fn flight_type_codes() {
    assert_eq!(FlightType::NonExistingH2H.code(), chars("H2Hn"));
    assert_eq!(FlightType::ExistingH2H.code(), chars("H2He"));
    assert_eq!(FlightType::NonExistingH2N.code(), chars("H2Nn"));
    assert_eq!(FlightType::NonExistingN2N.code(), chars("N2Nn"));
    assert_eq!(FlightType::ExistingH2N.code(), chars("H2Ne"));
    assert_eq!(FlightType::ExistingN2N.code(), chars("N2Ne"));
    assert!(FlightType::ExistingN2N.existing());
    assert!(!FlightType::NonExistingH2N.existing());
}

#[test]
fn num_flights_counts_one_direction() {
    let fd = data(vec![("X", "AAA", "BBB"), ("Y", "AAA", "BBB"), ("X", "BBB", "AAA")]);
    assert_eq!(fd.num_flights(&s("AAA"), &s("BBB")), 2);
    assert_eq!(fd.num_flights(&s("BBB"), &s("AAA")), 1);
    assert_eq!(fd.num_flights(&s("AAA"), &s("CCC")), 0);
}

fn hub_config() -> Config {
    let mut c = config(vec![
        gate("HUB", "1", "M"),
        gate("HUB", "2", "M"),
        gate("HUB", "3", "M"),
        gate("HBB", "1", "M"),
        gate("HBB", "2", "M"),
        gate("HBB", "3", "M"),
        gate("AAA", "1", "M"),
        gate("BBB", "1", "M"),
    ]);
    c.range_h2n = vec![(s("HUB"), vec![(100, 199)]), (s("HBB"), vec![(200, 299)])];
    c
}

#[test]
fn airports_flight_type_all_kinds() {
    let c = hub_config();
    let fd = data(vec![("X", "HUB", "HBB"), ("X", "HUB", "AAA"), ("X", "AAA", "HUB"), ("X", "AAA", "BBB")]);
    assert_eq!(c.airports_flight_type(&fd, &s("HUB"), &s("HBB")), FlightType::ExistingH2H);
    assert_eq!(c.airports_flight_type(&fd, &s("HBB"), &s("HUB")), FlightType::NonExistingH2H);
    assert_eq!(c.airports_flight_type(&fd, &s("HUB"), &s("AAA")), FlightType::ExistingH2N);
    assert_eq!(c.airports_flight_type(&fd, &s("HBB"), &s("AAA")), FlightType::NonExistingH2N);
    assert_eq!(c.airports_flight_type(&fd, &s("AAA"), &s("HUB")), FlightType::ExistingH2N);
    assert_eq!(c.airports_flight_type(&fd, &s("BBB"), &s("HUB")), FlightType::NonExistingH2N);
    assert_eq!(c.airports_flight_type(&fd, &s("AAA"), &s("BBB")), FlightType::ExistingN2N);
    assert_eq!(c.airports_flight_type(&fd, &s("BBB"), &s("AAA")), FlightType::NonExistingN2N);
    assert_eq!(
        c.gates_flight_type(&fd, &gate("HUB", "1", "M"), &gate("AAA", "1", "M")),
        FlightType::ExistingH2N
    );
}

#[test]
fn airports_score_formula() {
    let mut c = hub_config();
    let mut fd = data(vec![("X", "AAA", "BBB"), ("X", "AAA", "BBB"), ("X", "AAA", "BBB")]);
    // unflown N2N: 2 (one flight fewer than none, doubled) + 2
    assert_eq!(c.airports_score(&fd, &s("BBB"), &s("AAA")), 4);
    // three flights: 1 - 3 = -2, plus -1 for ExistingN2N
    assert_eq!(c.airports_score(&fd, &s("AAA"), &s("BBB")), -3);
    // unflown hub to hub: 2 + 6
    assert_eq!(c.airports_score(&fd, &s("HUB"), &s("HBB")), 8);
    c.preferred_between = vec![vec![s("AAA"), s("BBB")]];
    c.preferred_to = vec![(s("AAA"), vec![s("BBB")]), (s("BBB"), vec![s("AAA")])];
    fd.old_world_airports = vec![s("AAA")];
    assert_eq!(c.airports_score(&fd, &s("BBB"), &s("AAA")), 4 + 60 + 3);
    assert!(c.airports_score_in_range(&fd, &s("BBB"), &s("AAA")));
}

#[test]
fn gates_score_sizes() {
    let c = hub_config();
    let fd = data(vec![]);
    assert_eq!(c.gates_score(&fd, &gate("AAA", "1", "S"), &gate("BBB", "1", "S")), 4);
    assert_eq!(c.gates_score(&fd, &gate("AAA", "1", "M"), &gate("BBB", "1", "M")), 6);
    assert_eq!(c.gates_score(&fd, &gate("AAA", "1", "XS"), &gate("BBB", "1", "XS")), 7);
    assert!(c.gates_score_in_range(&fd, &gate("AAA", "1", "XS"), &gate("BBB", "1", "XS")));
}

#[test]
fn score_out_of_i8_range_is_reported() {
    let c = hub_config();
    let many: Vec<(&str, &str, &str)> = (0..129).map(|_| ("X", "AAA", "BBB")).collect();
    let fd = data(many);
    // 129 taken as an i8 is -127: one minus it is 128.
    assert!(!c.airports_score_in_range(&fd, &s("AAA"), &s("BBB")));
    let big: Vec<(&str, &str, &str)> = (0..127).map(|_| ("X", "AAA", "BBB")).collect();
    let fd = data(big);
    assert!(c.airports_score_in_range(&fd, &s("AAA"), &s("BBB")));
    assert_eq!(c.airports_score(&fd, &s("AAA"), &s("BBB")), 1 - 127 - 1);
}

#[test]
fn fewer_flights_score_higher_example() {
    let c = hub_config();
    let none = data(vec![]);
    let one = data(vec![("X", "AAA", "BBB")]);
    let two = data(vec![("X", "AAA", "BBB"), ("Y", "AAA", "BBB")]);
    let s0 = c.airports_score(&none, &s("AAA"), &s("BBB"));
    let s1 = c.airports_score(&one, &s("AAA"), &s("BBB"));
    let s2 = c.airports_score(&two, &s("AAA"), &s("BBB"));
    assert!(s0 > s1 && s1 > s2);
}

#[test]
fn flight_utils_pairs() {
    let c = hub_config();
    let fd = data(vec![]);
    let (a, b) = (s("AAA"), s("BBB"));
    assert_eq!((&a, &b).score(&c, &fd), 4);
    assert_eq!((&a, &b).get_flight_type(&c, &fd), FlightType::NonExistingN2N);
    let g1 = gate("AAA", "1", "XS");
    let g2 = gate("BBB", "1", "S");
    // the first gate's size counts twice: not S (+2), XS (+1)
    assert_eq!((&g1, &g2).score(&c, &fd), 7);
    assert_eq!((&g2, &g1).score(&c, &fd), 4);
    assert_eq!((&g1, &g2).get_flight_type(&c, &fd), FlightType::NonExistingN2N);
}

// ---------- configuration ----------

#[test]
fn airports_are_unique_in_order() {
    let c = config(vec![gate("BBB", "1", "M"), gate("AAA", "1", "M"), gate("BBB", "2", "M")]);
    assert_eq!(c.airports(), vec![s("BBB"), s("AAA")]);
}

#[test]
fn hubs_listed_or_by_threshold() {
    let mut c = hub_config();
    let mut hubs = c.hubs();
    hubs.sort();
    assert_eq!(hubs, vec![s("HBB"), s("HUB")]);
    assert!(c.is_hub(&s("HUB")));
    assert!(!c.is_hub(&s("AAA")));
    c.hubs = vec![s("AAA")];
    assert_eq!(c.hubs(), vec![s("AAA")]);
    assert!(!c.is_hub(&s("HUB")));
    c.hubs = vec![];
    c.hub_threshold = 0;
    assert!(!c.is_hub(&s("ZZZ")));
    assert!(c.is_hub(&s("AAA")));
}

#[test]
fn ignored_airlines_default_to_own() {
    let mut c = config(vec![]);
    assert_eq!(c.ignored_airlines(), vec![s("Astrella")]);
    c.ignored_airlines = vec![s("Other")];
    assert_eq!(c.ignored_airlines(), vec![s("Other")]);
}

#[test]
fn expand_gates_by_airport() {
    let mut c = config(vec![]);
    c.gates_by_airport = vec![
        (s("AAA"), vec![PartialGate { code: s("1"), size: s("M") }, PartialGate { code: s("2"), size: s("S") }]),
        (s("BBB"), vec![PartialGate { code: s("X"), size: s("L") }]),
    ];
    let gs = c.expand_gates();
    assert_eq!(gs.len(), 3);
    assert!(gs[0].same_as(&gate("AAA", "1", "M")));
    assert!(gs[1].same_as(&gate("AAA", "2", "S")));
    assert!(gs[2].same_as(&gate("BBB", "X", "L")));
}

#[test]
fn valid_flight_rules() {
    let mut c = hub_config();
    let fd = data(vec![("X", "AAA", "BBB")]);
    let a = gate("AAA", "1", "M");
    let b = gate("BBB", "1", "M");
    assert!(c.is_valid_flight(&fd, &a, &b));
    assert!(!c.is_valid_flight(&fd, &a, &gate("AAA", "2", "M")));
    assert!(!c.is_valid_flight(&fd, &a, &gate("BBB", "2", "S")));
    c.restricted_between = vec![vec![s("AAA"), s("BBB")]];
    assert!(!c.is_valid_flight(&fd, &a, &b));
    c.restricted_between = vec![];
    c.restricted_to = vec![(s("BBB"), vec![s("AAA")])];
    assert!(!c.is_valid_flight(&fd, &a, &b));
    c.restricted_to = vec![];
    c.gate_allowed_dests = vec![(s("AAA"), vec![(s("1"), vec![s("CCC")])])];
    assert!(!c.is_valid_flight(&fd, &a, &b));
    c.gate_allowed_dests = vec![(s("AAA"), vec![(s("1"), vec![s("BBB")])])];
    assert!(c.is_valid_flight(&fd, &a, &b));
    c.gate_allowed_dests = vec![];
    c.gate_denied_dests = vec![(s("BBB"), vec![(s("1"), vec![s("AAA")])])];
    assert!(!c.is_valid_flight(&fd, &a, &b));
    c.gate_denied_dests = vec![];
    c.no_dupes = vec![s("AAA")];
    assert!(!c.is_valid_flight(&fd, &a, &b));
    assert!(c.is_valid_flight(&fd, &b, &a));
    c.preferred_to = vec![(s("AAA"), vec![s("BBB")])];
    assert!(c.is_valid_flight(&fd, &a, &b));
}

// ---------- flight number dispensers ----------

#[test]
fn number_dispenser_skips_taken_numbers() {
    let mut g = FlightNumberGenerator::new(&vec![(5, 7), (9, 8), (20, 20)]);
    let fs = vec![flight(6, ("AAA", "1"), ("BBB", "1"), "M", 1, FlightType::NonExistingN2N)];
    assert_eq!(g.next_unused(&fs), Some(5));
    assert_eq!(g.next_unused(&fs), Some(7));
    assert_eq!(g.next_unused(&fs), Some(20));
    assert_eq!(g.next_unused(&fs), None);
    assert_eq!(g.next_unused(&vec![]), None);
}

// ---------- the planner ----------

fn assert_plan_laws(fs: &[Flight]) {
    assert_eq!(fs.len() % 2, 0);
    for k in 0..fs.len() / 2 {
        let (f1, f2) = (&fs[2 * k], &fs[2 * k + 1]);
        assert_eq!(f1.airport1, f2.airport2);
        assert_eq!(f1.airport2, f2.airport1);
        assert_eq!(f1.score, f2.score);
        assert_eq!(f1.ty, f2.ty);
        assert!(f1.score >= 0);
        for earlier in &fs[..2 * k] {
            assert_ne!(earlier.number, f1.number);
            assert_ne!(earlier.number, f2.number);
        }
        for l in 0..k {
            let g = &fs[2 * l];
            let same = (g.airport1.0 == f1.airport1.0 && g.airport2.0 == f1.airport2.0)
                || (g.airport1.0 == f1.airport2.0 && g.airport2.0 == f1.airport1.0);
            assert!(!same);
        }
    }
}

#[test]
fn run_connects_best_pairs_first() {
    let c = config(vec![gate("AAA", "1", "M"), gate("BBB", "1", "M"), gate("CCC", "1", "M")]);
    let fd = data(vec![("X", "AAA", "BBB")]);
    let plan = run(&c, &fd, None).unwrap();
    assert_plan_laws(&plan);
    assert_eq!(plan.len(), 6);
    // AAA-CCC and BBB-CCC (score 6) come before AAA-BBB (score 3).
    assert_eq!(plan[0].number, 300);
    assert_eq!(plan[0].airport1, (s("AAA"), s("1")));
    assert_eq!(plan[0].airport2, (s("CCC"), s("1")));
    assert_eq!(plan[0].score, 6);
    assert_eq!(plan[1].number, 301);
    assert_eq!(plan[1].airport1, (s("CCC"), s("1")));
    assert_eq!(plan[2].airport1, (s("BBB"), s("1")));
    assert_eq!(plan[2].airport2, (s("CCC"), s("1")));
    // BBB-CCC: BBB has no destination yet, so nothing is taken off
    assert_eq!(plan[2].score, 6);
    assert_eq!(plan[4].airport1, (s("AAA"), s("1")));
    assert_eq!(plan[4].airport2, (s("BBB"), s("1")));
    // AAA-BBB scores (1 - 1) - 1 + 2 = 1, less the smaller destination count (1)
    assert_eq!(plan[4].score, 0);
    assert_eq!(plan[4].ty, FlightType::ExistingN2N);
}

#[test]
fn run_pairs_numbered_apart() {
    let c = config(vec![gate("AAA", "1", "M"), gate("BBB", "1", "M"), gate("CCC", "1", "M")]);
    assert!(!c.both_dir_same_num);
    let plan = run(&c, &data(vec![]), None).unwrap();
    assert_plan_laws(&plan);
    assert_eq!(plan.len(), 6);
    for k in 0..plan.len() / 2 {
        assert_ne!(plan[2 * k].number, plan[2 * k + 1].number);
        assert_eq!(plan[2 * k].ty, FlightType::NonExistingN2N);
    }
}

#[test]
fn run_same_number_both_ways() {
    let mut c = config(vec![gate("AAA", "1", "M"), gate("BBB", "1", "M")]);
    c.both_dir_same_num = true;
    let plan = run(&c, &data(vec![]), None).unwrap();
    assert_eq!(plan.len(), 2);
    assert_eq!(plan[0].number, 300);
    assert_eq!(plan[1].number, 300);
}

#[test]
fn run_respects_hard_limits() {
    let mut c = config(vec![
        gate("AAA", "1", "M"),
        gate("BBB", "1", "M"),
        gate("CCC", "1", "M"),
        gate("DDD", "1", "M"),
    ]);
    c.hard_max_nonhub = 1;
    let plan = run(&c, &data(vec![]), None).unwrap();
    assert_plan_laws(&plan);
    // each gate gets one destination: two pairs of flights
    assert_eq!(plan.len(), 4);
}

#[test]
fn run_hub_routes_use_hub_ranges() {
    let mut c = config(vec![
        gate("HUB", "1", "M"),
        gate("HUB", "2", "M"),
        gate("AAA", "1", "M"),
    ]);
    c.hub_threshold = 2;
    c.range_h2n = vec![(s("HUB"), vec![(100, 199)])];
    let plan = run(&c, &data(vec![]), None).unwrap();
    assert_plan_laws(&plan);
    assert_eq!(plan.len(), 2);
    assert_eq!(plan[0].airport1.0, s("HUB"));
    assert_eq!(plan[0].number, 100);
    assert_eq!(plan[1].number, 101);
    assert_eq!(plan[0].ty, FlightType::NonExistingH2N);
}

#[test]
fn run_missing_hub_range_is_an_error() {
    let mut c = config(vec![gate("HUB", "1", "M"), gate("HUB", "2", "M"), gate("AAA", "1", "M")]);
    c.hub_threshold = 2;
    match run(&c, &data(vec![]), None) {
        Err(RunError::MissingH2nRange { airport }) => assert_eq!(airport, s("AAA")),
        other => panic!("unexpected {:?}", other),
    }
}

#[test]
fn run_without_numbers_is_an_error() {
    let mut c = config(vec![gate("AAA", "1", "M"), gate("BBB", "1", "M")]);
    c.range_n2n = vec![(300, 300)];
    match run(&c, &data(vec![]), None) {
        Err(RunError::NoFlightNumber { from, to }) => {
            assert_eq!(from, s("BBB"));
            assert_eq!(to, s("AAA"));
        }
        other => panic!("unexpected {:?}", other),
    }
    c.range_n2n = vec![];
    match run(&c, &data(vec![]), None) {
        Err(RunError::NoFlightNumber { from, to }) => {
            assert_eq!(from, s("AAA"));
            assert_eq!(to, s("BBB"));
        }
        other => panic!("unexpected {:?}", other),
    }
}

#[test]
fn run_score_overflow_is_an_error() {
    let c = config(vec![gate("AAA", "1", "M"), gate("BBB", "1", "M")]);
    let many: Vec<(&str, &str, &str)> = (0..129).map(|_| ("X", "AAA", "BBB")).collect();
    match run(&c, &data(many), None) {
        Err(RunError::ScoreOverflow) => {}
        other => panic!("unexpected {:?}", other),
    }
}

#[test]
fn run_prefers_previously_planned_pairs() {
    let mut c = config(vec![gate("AAA", "1", "M"), gate("BBB", "1", "M"), gate("CCC", "1", "M")]);
    c.hard_max_nonhub = 1;
    let first = run(&c, &data(vec![]), None).unwrap();
    assert_eq!(first[0].airport2.0, s("BBB"));
    let old = vec![flight(7, ("CCC", "1"), ("BBB", "1"), "M", 6, FlightType::NonExistingN2N)];
    let again = run(&c, &data(vec![]), Some(&old)).unwrap();
    assert_eq!(again.len(), 2);
    assert_eq!(again[0].airport1, (s("BBB"), s("1")));
    assert_eq!(again[0].airport2, (s("CCC"), s("1")));
}

#[test]
fn run_skips_numbers_of_earlier_flights() {
    let mut c = config(vec![gate("AAA", "1", "M"), gate("BBB", "1", "M"), gate("CCC", "1", "M")]);
    c.range_n2n = vec![(1, 2), (1, 6)];
    let plan = run(&c, &data(vec![]), None).unwrap();
    assert_plan_laws(&plan);
    let numbers: Vec<u16> = plan.iter().map(|f| f.number).collect();
    assert_eq!(numbers, vec![1, 2, 3, 4, 5, 6]);
    // with fewer distinct numbers than flights the planner stops
    c.range_n2n = vec![(1, 2), (1, 4)];
    assert!(run(&c, &data(vec![]), None).is_err());
}

// ---------- the plan's text ----------

#[test]
fn flight_line_format() {
    let f = flight(12, ("AAA", "A1"), ("BBB", "B 2"), "M", 7, FlightType::ExistingH2N);
    assert_eq!(f.to_line(), s("12 (M): AAA A1 BBB B 2 (7, H2Ne)"));
    let g = flight(0, ("AAA", "1"), ("BBB", "2"), "S", -5, FlightType::NonExistingN2N);
    assert_eq!(g.to_line(), s("0 (S): AAA 1 BBB 2 (-5, N2Nn)"));
}

#[test]
fn plan_text_sorted_by_number() {
    let fs = vec![
        flight(20, ("AAA", "1"), ("BBB", "1"), "M", 3, FlightType::NonExistingN2N),
        flight(5, ("BBB", "1"), ("AAA", "1"), "M", 3, FlightType::NonExistingN2N),
        flight(5, ("CCC", "1"), ("AAA", "1"), "M", 2, FlightType::ExistingN2N),
    ];
    assert_eq!(
        Flight::vec_to_string(&fs),
        s("5 (M): BBB 1 AAA 1 (3, N2Nn)\n5 (M): CCC 1 AAA 1 (2, N2Ne)\n20 (M): AAA 1 BBB 1 (3, N2Nn)")
    );
    assert_eq!(Flight::vec_to_string(&vec![]), s(""));
}

#[test]
fn plan_text_reads_back() {
    let fs = vec![
        flight(20, ("AAA", "1"), ("BBB", "2"), "XS", 3, FlightType::NonExistingH2H),
        flight(21, ("BBB", "2"), ("AAA", "1"), "XS", 3, FlightType::ExistingH2N),
    ];
    let text = Flight::vec_to_string(&fs);
    let back = Flight::vec_from_str(&format!("{}\n\n", text)).unwrap();
    assert_eq!(back.len(), 2);
    for (a, b) in fs.iter().zip(back.iter()) {
        assert_eq!(a.number, b.number);
        assert_eq!(a.airport1, b.airport1);
        assert_eq!(a.airport2, b.airport2);
        assert_eq!(a.size, b.size);
        assert_eq!(a.score, b.score);
        assert_eq!(a.ty, b.ty);
    }
}

#[test]
fn plan_text_errors() {
    assert_eq!(Flight::vec_from_str("nonsense").unwrap_err(), PlanParseError::InvalidLine);
    assert_eq!(
        Flight::vec_from_str("99999 (M): AAA 1 BBB 1 (3, N2Nn)").unwrap_err(),
        PlanParseError::BadNumber
    );
    assert_eq!(
        Flight::vec_from_str("9 (M): AAA 1 BBB 1 (300, N2Nn)").unwrap_err(),
        PlanParseError::BadScore
    );
    assert_eq!(
        Flight::vec_from_str("9 (M): AAA 1 BBB 1 (3, X2Xx)").unwrap_err(),
        PlanParseError::BadKind
    );
    // the first bad line decides
    assert_eq!(
        Flight::vec_from_str("x\n9 (M): AAA 1 BBB 1 (3, X2Xx)").unwrap_err(),
        PlanParseError::InvalidLine
    );
    assert_eq!(Flight::vec_from_str("").unwrap().len(), 0);
}

// ---------- gate files ----------

#[test]
fn gate_file_lines() {
    let gs = parse_gate_file("AAA A1 M\n  \nBBB  B1 S extra\n").unwrap();
    assert_eq!(gs.len(), 2);
    assert!(gs[0].same_as(&gate("AAA", "A1", "M")));
    // two spaces make an empty second field
    assert!(gs[1].same_as(&gate("BBB", "", "B1")));
    assert!(parse_gate_file("AAA A1\n").is_none());
    assert_eq!(parse_gate_file("").unwrap().len(), 0);
}

// ---------- flight data ----------

#[test]
fn preprocess_drops_ignored_airlines() {
    let c = hub_config();
    let mut fd = data(vec![("Astrella", "AAA", "BBB"), ("Other", "AAA", "BBB")]);
    fd.preprocess(&c).unwrap();
    assert_eq!(fd.flights.len(), 1);
    assert_eq!(fd.flights[0].airline, s("Other"));
}

#[test]
fn preprocess_requires_hub_ranges() {
    let mut c = hub_config();
    c.range_h2n = vec![(s("HUB"), vec![(1, 2)])];
    let mut fd = data(vec![]);
    match fd.preprocess(&c) {
        Err(PreprocessError::MissingRanges(v)) => assert_eq!(v, vec![s("HBB")]),
        other => panic!("unexpected {:?}", other),
    }
}

#[test]
fn flight_data_from_parts_splits_worlds() {
    let fd = FlightData::from_parts(vec![], &vec![(s("AAA"), true), (s("BBB"), false), (s("CCC"), true)], 42);
    assert_eq!(fd.old_world_airports, vec![s("AAA"), s("CCC")]);
    assert_eq!(fd.new_world_airports, vec![s("BBB")]);
    assert_eq!(fd.timestamp, 42);
}

#[test]
fn unknown_airports_and_hubs_without_gates() {
    let mut c = config(vec![gate("AAA", "1", "M"), gate("BBB", "1", "M")]);
    let fd = FlightData::from_parts(vec![], &vec![(s("AAA"), true)], 0);
    assert_eq!(fd.unknown_airports(&c), vec![s("BBB")]);
    c.hubs = vec![s("AAA"), s("ZZZ")];
    assert_eq!(c.hubs_without_gates(), vec![s("ZZZ")]);
    c.hubs = vec![];
    assert!(c.hubs_without_gates().is_empty());
}

// ---------- statistics ----------

#[test]
fn stats_counts() {
    let mut c = config(vec![gate("AAA", "1", "M"), gate("BBB", "1", "M"), gate("CCC", "1", "M")]);
    c.hard_max_nonhub = 1;
    let fs = vec![
        flight(1, ("AAA", "1"), ("BBB", "1"), "M", 3, FlightType::ExistingN2N),
        flight(2, ("BBB", "1"), ("AAA", "1"), "M", 3, FlightType::ExistingN2N),
    ];
    let st = get_stats(&fs, &c);
    assert_eq!(st.flights, 2);
    assert_eq!(st.flight_pairs, 1);
    assert_eq!(st.airports, 3);
    assert_eq!(st.gates, 3);
    assert_eq!(st.full_gates.len(), 2);
    assert_eq!(st.empty_gates.len(), 1);
    assert_eq!(st.empty_gates[0].airport, s("CCC"));
    assert_eq!(st.full_gates_text, "AAA 1, BBB 1");
    assert_eq!(st.empty_gates_text, "CCC 1");
    assert_eq!(st.duped_flights, 2);
}

#[test]
fn stats_gate_lists_are_sorted() {
    let mut c = config(vec![gate("ZZZ", "2", "M"), gate("ZZZ", "10", "M"), gate("AAA", "b", "M"), gate("AAA", "B", "M")]);
    c.hard_max_nonhub = 1;
    let st = get_stats(&[], &c);
    assert_eq!(st.full_gates_text, "");
    assert_eq!(st.empty_gates_text, "AAA B, AAA b, ZZZ 10, ZZZ 2");
}

// ---------- helpers ----------

#[test]
fn lists_lookup_first_entry() {
    let m = vec![(s("A"), 1), (s("B"), 2), (s("A"), 3)];
    assert_eq!(find_key(&m, &s("A")), Some(0));
    assert_eq!(find_key(&m, &s("C")), None);
    assert!(contains_str(&vec![s("x"), s("y")], &s("y")));
    assert!(!contains_str(&vec![], &s("y")));
}

#[test]
fn text_helpers() {
    assert_eq!(trim(&chars("\t a b \u{3000}")), chars("a b"));
    assert_eq!(trim(&chars("   ")), chars(""));
    let parts = split_chars(&chars("a,,b"), ',');
    assert_eq!(parts, vec![chars("a"), chars(""), chars("b")]);
    let mut out = vec![];
    push_decimal(&mut out, 1207);
    assert_eq!(out, chars("1207"));
    let mut out = vec![];
    push_signed_decimal(&mut out, -128);
    assert_eq!(out, chars("-128"));
}

#[test]
fn run_result_is_determined_by_inputs() {
    let c = config(vec![
        gate("AAA", "1", "M"),
        gate("BBB", "1", "M"),
        gate("CCC", "1", "M"),
        gate("DDD", "1", "M"),
    ]);
    let fd = data(vec![("X", "AAA", "DDD")]);
    let a = run(&c, &fd, None).unwrap();
    let b = run(&c, &fd, None).unwrap();
    assert_eq!(Flight::vec_to_string(&a), Flight::vec_to_string(&b));
    assert_plan_laws(&a);
}

#[test]
fn airports_list_each_airport_once() {
    let c = config(vec![gate("AAA", "1", "M"), gate("AAA", "2", "M"), gate("BBB", "1", "M"), gate("AAA", "3", "S")]);
    let a = c.airports();
    assert_eq!(a, vec![s("AAA"), s("BBB")]);
}

#[test]
fn preprocess_lists_hubs_in_order_with_repeats() {
    let mut c = hub_config();
    c.hubs = vec![s("HBB"), s("AAA"), s("HBB"), s("HUB")];
    c.range_h2n = vec![(s("HUB"), vec![(1, 2)])];
    let mut fd = data(vec![("Astrella", "AAA", "BBB")]);
    let first = fd.preprocess(&c);
    let second = fd.preprocess(&c);
    match (first, second) {
        (Err(PreprocessError::MissingRanges(a)), Err(PreprocessError::MissingRanges(b))) => {
            assert_eq!(a, vec![s("HBB"), s("AAA"), s("HBB")]);
            assert_eq!(a, b);
        }
        other => panic!("unexpected {:?}", other),
    }
    assert!(fd.flights.is_empty());
}

#[test]
fn hubs_by_threshold_in_order_of_first_gate() {
    let mut c = config(vec![
        gate("BBB", "1", "M"),
        gate("AAA", "1", "M"),
        gate("AAA", "2", "M"),
        gate("BBB", "2", "M"),
        gate("CCC", "1", "M"),
    ]);
    c.hub_threshold = 2;
    assert_eq!(c.hubs(), vec![s("BBB"), s("AAA")]);
}

#[test]
fn more_restrictions_accept_less_example() {
    let mut c = config(vec![]);
    let fd = data(vec![]);
    let a = gate("AAA", "1", "M");
    let b = gate("BBB", "1", "M");
    assert!(c.is_valid_flight(&fd, &a, &b));
    c.restricted_to.push((s("AAA"), vec![s("BBB")]));
    assert!(!c.is_valid_flight(&fd, &a, &b));
    let mut c = config(vec![]);
    c.gate_denied_dests.push((s("BBB"), vec![(s("1"), vec![s("AAA")])]));
    assert!(!c.is_valid_flight(&fd, &a, &b));
}

#[test]
fn restriction_inserted_before_other_entries() {
    let mut c = config(vec![]);
    let fd = data(vec![]);
    let a = gate("AAA", "1", "M");
    let b = gate("BBB", "1", "M");
    c.restricted_to.push((s("ZZZ"), vec![s("YYY")]));
    assert!(c.is_valid_flight(&fd, &a, &b));
    c.restricted_to.insert(0, (s("BBB"), vec![s("AAA")]));
    assert!(!c.is_valid_flight(&fd, &a, &b));
    assert!(!c.is_valid_flight(&fd, &b, &a));
}

#[test]
fn pair_methods_agree_with_config() {
    let c = hub_config();
    let fd = data(vec![("X", "AAA", "HUB")]);
    for (x, y) in [("AAA", "HUB"), ("HUB", "AAA"), ("AAA", "BBB"), ("HUB", "HBB")] {
        let (a, b) = (s(x), s(y));
        assert_eq!((&a, &b).score(&c, &fd), c.airports_score(&fd, &a, &b));
        assert_eq!((&a, &b).get_flight_type(&c, &fd), c.airports_flight_type(&fd, &a, &b));
    }
}

#[test]
fn gate_keys_group_by_departure() {
    let fs = vec![
        flight(1, ("AAA", "1"), ("BBB", "1"), "M", 3, FlightType::NonExistingN2N),
        flight(2, ("BBB", "1"), ("AAA", "1"), "M", 3, FlightType::NonExistingN2N),
        flight(3, ("AAA", "1"), ("CCC", "2"), "M", 3, FlightType::NonExistingN2N),
    ];
    let g = gate_keys(&fs);
    assert_eq!(g.len(), 2);
    assert_eq!(g[0].0, (s("AAA"), s("1")));
    assert_eq!(g[0].1, vec![((s("BBB"), s("1")), 1), ((s("CCC"), s("2")), 3)]);
    assert_eq!(g[1].0, (s("BBB"), s("1")));
    assert_eq!(g[1].1, vec![((s("AAA"), s("1")), 2)]);
}

#[test]
fn gate_keys_listing_sorted() {
    let fs = vec![
        flight(12, ("BBB", "1"), ("AAA", "1"), "M", 3, FlightType::NonExistingN2N),
        flight(1, ("AAA", "1"), ("BBB", "1"), "M", 3, FlightType::NonExistingN2N),
        flight(3, ("AAA", "1"), ("CCC", "2"), "M", 3, FlightType::NonExistingN2N),
    ];
    assert_eq!(gate_keys_string(&fs), "AAA 1: 1 BBB 1, 3 CCC 2\nBBB 1: 12 AAA 1");
    assert_eq!(gate_keys_string(&vec![]), "");
}

#[test]
fn planned_flights_read_back() {
    let c = config(vec![gate("AAA", "1", "M"), gate("BBB", "1", "S"), gate("CCC", "1", "M"), gate("DDD", "2", "S")]);
    let plan = run(&c, &data(vec![]), None).unwrap();
    let back = Flight::vec_from_str(&Flight::vec_to_string(&plan)).unwrap();
    let mut sorted = plan.clone();
    sorted.sort_by_key(|f| f.number);
    assert_eq!(back.len(), sorted.len());
    for (a, b) in sorted.iter().zip(back.iter()) {
        assert_eq!(a.to_line(), b.to_line());
    }
}
