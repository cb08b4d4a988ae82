use jigsaw::bellcore::row::Row;
use jigsaw::bellcore::stage::Stage;
use jigsaw::proj::annotated::{clone_or_empty, AnnotatedRow, Frag as AnnotatedFrag};

#[test]
fn highlights_of_runs() {
    let r = AnnotatedRow::unannotated(Row::parse("12345678").unwrap());
    assert_eq!(r.highlights(), vec![true; 8]);
    assert_eq!(r.highlight_ranges(), vec![0, 8]);

    let r = AnnotatedRow::unannotated(Row::parse("13572468").unwrap());
    assert_eq!(r.highlights(), vec![false; 8]);
    assert_eq!(r.highlight_ranges(), Vec::<usize>::new());

    let r = AnnotatedRow::unannotated(Row::parse("4321857690").unwrap());
    assert_eq!(r.highlights(), vec![true, true, true, true, false, false, false, false, false, false]);
    assert_eq!(r.highlight_ranges(), vec![0, 4]);

    let r = AnnotatedRow::unannotated(Row::parse("2143658709").unwrap());
    assert_eq!(r.highlight_ranges(), Vec::<usize>::new());

    let r = AnnotatedRow::unannotated(Row::parse("1234908765").unwrap());
    assert_eq!(r.highlight_ranges(), vec![0, 4, 6, 10]);
}

#[test]
fn annotations() {
    let mut r = AnnotatedRow::unannotated(Row::parse("2143").unwrap());
    assert_eq!(r.len(), 4);
    assert_eq!(r.bells_indices(), vec![1, 0, 3, 2]);
    assert_eq!(r.method_str(), "");
    assert_eq!(r.call_str(), "");
    assert!(!r.is_ruleoff());
    r.method_str = Some(String::from("Bristol"));
    r.call_str = Some(String::from("sB"));
    r.is_lead_end = true;
    assert_eq!(r.method_str(), "Bristol");
    assert_eq!(r.call_str(), "sB");
    assert!(r.is_ruleoff());
    assert_eq!(r.row(), Row::parse("2143").unwrap());
    assert_eq!(clone_or_empty(&None), "");
}

#[test]
fn stage_names() {
    assert_eq!(Stage::new(12).to_string(), "Maximus");
    assert_eq!(Stage::new(9).to_string(), "Caters");
    assert_eq!(Stage::new(3).to_string(), "Singles");
    assert_eq!(Stage::new(2).to_string(), "2");
    assert_eq!(Stage::new(100).to_string(), "100");
}

#[test]
fn annotated_frag_rows() {
    let mut first = AnnotatedRow::unannotated(Row::parse("12345678").unwrap());
    first.method_str = Some(String::from("Deva"));
    let mut second = AnnotatedRow::unannotated(Row::parse("21436587").unwrap());
    second.is_lead_end = true;
    second.call_str = Some(String::from("sB"));
    let frag = AnnotatedFrag { rows: vec![first, second] };
    assert_eq!(frag.len(), 2);
    assert_eq!(frag.num_bells(), 8);
    let r = frag.get_row(1);
    assert!(r.is_lead_end);
    assert_eq!(r.call_str(), "sB");
    assert_eq!(r.method_str(), "");
    assert_eq!(r.row(), Row::parse("21436587").unwrap());
    assert_eq!(frag.get_row(0).method_str(), "Deva");
    assert_eq!(frag.false_row_groups(), vec![0, 3, 0, 8, 11, 1, 3, 5, 2, 15, 20, 3, 22, 23, 4, 25, 26, 5]);
}
