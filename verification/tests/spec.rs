use jigsaw::bellcore::block::AnnotBlock;
use jigsaw::bellcore::call::Call;
use jigsaw::bellcore::method::Method;
use jigsaw::bellcore::row::Row;
use jigsaw::bellcore::stage::Stage;
use jigsaw::proj::spec::{Annot, CallRef, CallSpec, Frag, MethodRef, MethodSpec, PartHeads, Spec};

fn row(s: &str) -> Row {
    Row::parse(s).unwrap()
}

/// A method on four bells whose lead is `1234, 2143, 2413` (leftover `4231`).
fn method() -> MethodSpec {
    let lead = AnnotBlock::from_annot_rows(vec![
        (row("1234"), None),
        (row("2143"), None),
        (row("2413"), Some(String::from("LE"))),
        (row("4231"), None),
    ])
    .unwrap();
    MethodSpec {
        shorthand: String::from("X"),
        place_not_string: String::from("x14x"),
        method: Method::new(String::from("Example"), lead),
    }
}

/// A bob on four bells which swaps the front two bells, with calling positions `ABCD`.
fn call() -> CallSpec {
    let block = AnnotBlock::from_annot_rows(vec![(row("1234"), ()), (row("2134"), ())]).unwrap();
    CallSpec {
        call: Call::new('-', String::from("LE"), 1, block),
        calling_positions: vec!['A', 'B', 'C', 'D'],
    }
}

fn annot(method_index: usize, sub_lead_index: usize, call: Option<usize>) -> Annot {
    Annot {
        is_lead_end: false,
        method: Some(MethodRef { method_index, sub_lead_index }),
        call: call.map(|call_index| CallRef { call_index, row_index: 0 }),
    }
}

fn frag(start: &str, muted: bool) -> Frag {
    let block = AnnotBlock::from_annot_rows(vec![
        (row("1234"), annot(0, 0, None)),
        (row("2143"), annot(0, 1, Some(0))),
        (row("2413"), annot(0, 0, None)),
        (row("4231"), Annot::default()),
    ])
    .unwrap();
    Frag { start_row: row(start), block, is_muted: muted }
}

#[test]
fn part_heads_are_powers() {
    let ph = PartHeads::parse("2341", Stage::new(4)).unwrap();
    assert_eq!(ph.len(), 4);
    assert_eq!(ph.spec_string(), "2341");
    let rows: Vec<String> = ph.rows().iter().map(|r| r.to_string()).collect();
    assert_eq!(rows, vec!["1234", "2341", "3412", "4123"]);
    assert!(PartHeads::parse("2245", Stage::new(5)).is_err());
}

#[test]
fn part_heads_equivalence() {
    let ph = PartHeads::parse("2341", Stage::new(4)).unwrap();
    assert_eq!(ph.are_equivalent(&row("1234"), &row("3412")), Ok(true));
    assert_eq!(ph.are_equivalent(&row("2143"), &row("1432")), Ok(true));
    assert_eq!(ph.are_equivalent(&row("1234"), &row("2134")), Ok(false));
    assert!(ph.are_equivalent(&row("123"), &row("1234")).is_err());
}

#[test]
fn frag_expansion_labels_splices_and_calls() {
    let f = frag("1234", false);
    let ph = PartHeads::parse("2341", Stage::new(4)).unwrap();
    let exp = f.expand(ph.rows(), &[method()], &[call()]);
    assert_eq!(exp.len(), 4);
    // Each row is expanded once per part
    assert_eq!(exp[1].rows.len(), 4);
    assert_eq!(exp[1].rows[1].to_string(), "3214");
    // The first row starts a splice; the third restarts the method, so it starts a splice too and
    // the row before it becomes a ruleoff
    assert_eq!(exp[0].method_label.as_ref().unwrap().name, "Example");
    assert!(exp[1].method_label.is_none());
    assert_eq!(exp[2].method_label.as_ref().unwrap().shorthand, "X");
    assert!(exp[1].is_ruleoff);
    assert!(!exp[0].is_ruleoff);
    // The call is labelled in each part with its calling position
    let labels = &exp[1].call_label.as_ref().unwrap().labels;
    assert_eq!(labels.len(), 4);
    assert_eq!(labels[0], "-C");
    // The leftover row is not proved
    assert!(exp[0].is_proved);
    assert!(!exp[3].is_proved);
    assert!(exp[3].is_leftover);
    // A muted fragment proves nothing
    let muted = frag("1234", true).expand(ph.rows(), &[method()], &[call()]);
    assert!(!muted[0].is_proved);
}

fn spec(frags: Vec<Frag>) -> Spec {
    Spec {
        frags,
        part_heads: PartHeads::parse("1234", Stage::new(4)).unwrap(),
        methods: vec![method()],
        calls: vec![call()],
        stage: Stage::new(4),
    }
}

#[test]
fn solo_frag_twice() {
    let mut s = spec(vec![frag("1234", false), frag("2143", false), frag("1324", true)]);
    s.solo_single_frag(1);
    assert_eq!(s.frags.iter().map(|f| f.is_muted).collect::<Vec<_>>(), vec![true, false, true]);
    s.solo_single_frag(1);
    assert_eq!(s.frags.iter().map(|f| f.is_muted).collect::<Vec<_>>(), vec![false, false, false]);
    assert_eq!(s.is_frag_muted(0), Some(false));
    assert_eq!(s.is_frag_muted(3), None);
}

#[test]
fn spec_lengths_and_joins() {
    let mut s = spec(vec![frag("1234", false), frag("2143", false)]);
    assert!(!s.is_empty());
    assert_eq!(s.num_parts(), 1);
    assert_eq!(s.part_len(), 6);
    assert_eq!(s.len(), 6);
    s.join_frags(1, 0);
    assert_eq!(s.frags.len(), 1);
    assert_eq!(s.frags[0].len(), 6);
    assert_eq!(s.frags[0].start_row.to_string(), "2143");
    let exp = s.expand();
    assert_eq!(exp.len(), 1);
    assert_eq!(exp[0].len(), 7);
    s.delete_frag(0);
    assert!(s.is_empty());
}

#[test]
fn frag_split_and_transpose() {
    let mut f = frag("1234", false);
    assert!(f.split(0).is_err());
    assert!(f.split(3).is_err());
    let second = f.split(1).unwrap();
    assert_eq!(f.len(), 1);
    assert_eq!(second.len(), 2);
    // The second part starts from the split row, with its block starting at rounds
    assert_eq!(second.start_row.to_string(), "2143");
    assert_eq!(second.block.get_row(0).unwrap().to_string(), "1234");
    assert_eq!(second.block.get_row(1).unwrap().to_string(), "1324");

    let mut g = frag("1234", false);
    g.transpose_row_to(1, &row("4321")).unwrap();
    let exp = g.expand(&[row("1234")], &[method()], &[call()]);
    assert_eq!(exp[1].rows[0].to_string(), "4321");
}

#[test]
fn frag_from_rows_keeps_rows() {
    let rows = vec![
        (row("2143"), Annot::default()),
        (row("1234"), Annot::default()),
        (row("1324"), Annot::default()),
    ];
    let f = Frag::from_rows(rows, true);
    assert!(f.is_muted);
    assert_eq!(f.start_row.to_string(), "2143");
    assert_eq!(f.block.get_row(0).unwrap().to_string(), "1234");
    let exp = f.expand(&[row("1234")], &[method()], &[call()]);
    let rows: Vec<String> = exp.iter().map(|e| e.rows[0].to_string()).collect();
    assert_eq!(rows, vec!["2143", "1234", "1324"]);
}

#[test]
fn spec_split_frag() {
    let mut s = spec(vec![frag("1234", false), frag("2143", false)]);
    assert_eq!(
        s.split_frag(5, 1),
        Err(jigsaw::proj::spec::FragSplitError::IndexOutOfRange { index: 5, num_frags: 2 })
    );
    assert_eq!(s.split_frag(0, 0), Err(jigsaw::proj::spec::FragSplitError::ZeroLengthFrag));
    assert_eq!(s.split_frag(0, 2), Ok(()));
    assert_eq!(s.frags.len(), 3);
    assert_eq!(s.frags[0].len(), 2);
    assert_eq!(s.frags[2].len(), 1);
    assert_eq!(s.frags[2].start_row.to_string(), "2413");
    // The new fragment holds the rows from the split point on, re-based to start at rounds
    assert_eq!(s.frags[2].block.get_row(0).unwrap().to_string(), "1234");
    assert_eq!(s.frags[2].block.get_row(1).unwrap().to_string(), "2143");
    assert_eq!(s.part_len(), 6);
}
