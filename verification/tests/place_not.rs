use jigsaw::bellcore::place_not::{ParseError, PlaceNot};
use jigsaw::bellcore::stage::Stage;

#[test]
fn parse_ok() {
    for (inp_string, stage, exp_places) in &[
        // No implict places
        ("14", 8, vec![0, 3]),
        ("1256", 6, vec![0, 1, 4, 5]),
        ("16", 12, vec![0, 5]),
        ("127", 7, vec![0, 1, 6]),
        ("3", 9, vec![2]),
        // Implicit places in lead
        ("4", 4, vec![0, 3]),
        ("234", 6, vec![0, 1, 2, 3]),
        ("478", 8, vec![0, 3, 6, 7]),
        ("470", 10, vec![0, 3, 6, 9]),
        ("2", 2, vec![0, 1]),
        // Implicit places in lie
        ("3", 8, vec![2, 7]),
        ("12", 5, vec![0, 1, 4]),
        ("1", 2, vec![0, 1]),
        ("14", 11, vec![0, 3, 10]),
        // Implicit places between two other places
        ("146", 8, vec![0, 3, 4, 5]),
        ("13", 3, vec![0, 1, 2]),
        ("13", 7, vec![0, 1, 2]),
        ("135", 7, vec![0, 1, 2, 3, 4]),
        // Implicit places in multiple places
        ("23", 8, vec![0, 1, 2, 7]),
        ("4", 7, vec![0, 3, 6]),
        ("45", 6, vec![0, 3, 4, 5]),
        ("46", 9, vec![0, 3, 4, 5, 8]),
        // Out of order places
        ("6152", 6, vec![0, 1, 4, 5]),
        ("342", 6, vec![0, 1, 2, 3]),
        ("32", 8, vec![0, 1, 2, 7]),
        ("21", 5, vec![0, 1, 4]),
        // Misc characters
        ("2\t  1 |", 5, vec![0, 1, 4]),
        ("   6\n?15&2!", 6, vec![0, 1, 4, 5]),
    ] {
        let stage = Stage::new(*stage);
        let pn = PlaceNot::parse(inp_string, stage).unwrap();
        assert_eq!(pn.stage(), stage);
        assert_eq!(pn.places().to_vec(), *exp_places);
    }
}

#[test]
fn parse_err_odd_bell_cross() {
    for &n in &[3, 5, 7, 9, 11, 13, 15] {
        let stage = Stage::new(n);
        for cross_not in &["x", "X", "-"] {
            assert_eq!(
                PlaceNot::parse(cross_not, stage),
                Err(ParseError::OddStageCross { stage })
            );
        }
    }
}

#[test]
fn parse_err_place_out_of_stage() {
    for &(inp_string, n, place) in &[("148", 4, 7), ("91562", 6, 8), ("  3", 2, 2)] {
        let stage = Stage::new(n);
        assert_eq!(
            PlaceNot::parse(inp_string, stage),
            Err(ParseError::PlaceOutOfStage { stage, place })
        );
    }
}

#[test]
fn parse_err_no_places_given() {
    for n in 0..12 {
        assert_eq!(
            PlaceNot::parse("", Stage::from(n)),
            Err(ParseError::NoPlacesGiven)
        );
    }
}

#[test]
fn parse_err_ambiguous_gap() {
    for &(inp_string, n, exp_p, exp_q) in &[
        ("15", 8, 0, 4),
        ("39", 10, 2, 8),
        ("1925", 12, 4, 8),
        ("1026", 10, 1, 5),
    ] {
        assert_eq!(
            PlaceNot::parse(inp_string, Stage::new(n)),
            Err(ParseError::AmbiguousPlacesBetween { p: exp_p, q: exp_q })
        );
    }
}

#[test]
fn cross_is_cross() {
    assert!(PlaceNot::cross(Stage::new(8)).unwrap().is_cross());
    assert!(PlaceNot::parse("x", Stage::new(8)).unwrap().is_cross());
    assert_eq!(PlaceNot::cross(Stage::new(8)), Some(PlaceNot::parse("-", Stage::new(8)).unwrap()));
    assert!(!PlaceNot::parse("14", Stage::new(8)).unwrap().is_cross());
    assert!(!PlaceNot::parse("3", Stage::new(7)).unwrap().is_cross());
    assert_eq!(PlaceNot::cross(Stage::new(7)), None);
}

#[test]
fn place_not_to_string() {
    for (inp_string, stage, exp) in &[
        ("14", 8, "14"),
        ("3", 8, "38"),
        ("146", 8, "1456"),
        ("x", 6, "-"),
        ("X", 12, "-"),
        ("470", 10, "1470"),
        ("6152", 6, "1256"),
        ("1T", 12, "1T"),
    ] {
        let pn = PlaceNot::parse(inp_string, Stage::new(*stage)).unwrap();
        assert_eq!(pn.to_string(), *exp);
        assert_eq!(pn.clone(), pn);
    }
}

#[test]
fn repeated_places_count_once() {
    assert_eq!(PlaceNot::parse("1441", Stage::major()).unwrap().to_string(), "14");
    assert_eq!(PlaceNot::parse("11", Stage::major()).unwrap().to_string(), "18");
}

#[test]
fn parse_error_messages() {
    assert_eq!(PlaceNot::parse("14T", Stage::major()).unwrap_err().to_string(), "Place 'T' is out stage Major");
    assert_eq!(
        PlaceNot::parse("15", Stage::major()).unwrap_err().to_string(),
        "Ambiguous gap of 3 bells between places '1' and '5'."
    );
    assert_eq!(
        PlaceNot::parse("", Stage::major()).unwrap_err().to_string(),
        "No places given.  Use 'x' or '-' for a cross."
    );
    assert_eq!(PlaceNot::parse("x", Stage::triples()).unwrap_err().to_string(), "Cross notation for odd stage Triples");
}
