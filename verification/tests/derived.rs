use jigsaw::bellcore::block::AnnotBlock;
use jigsaw::bellcore::call::Call;
use jigsaw::bellcore::method::Method;
use jigsaw::bellcore::row::Row;
use jigsaw::bellcore::stage::Stage;
use jigsaw::proj::derived::DerivedState;
use jigsaw::proj::links::gen_frag_links;
use jigsaw::proj::spec::{Annot, CallRef, CallSpec, Frag, MethodRef, MethodSpec, PartHeads, Spec};

fn row(s: &str) -> Row {
    Row::parse(s).unwrap()
}

fn method() -> MethodSpec {
    let lead = AnnotBlock::from_annot_rows(vec![
        (row("1234"), None),
        (row("2143"), None),
        (row("2413"), Some(String::from("LE"))),
        (row("4231"), None),
    ])
    .unwrap();
    MethodSpec {
        shorthand: String::from("X"),
        place_not_string: String::from("x14x"),
        method: Method::new(String::from("Example"), lead),
    }
}

fn call() -> CallSpec {
    let block = AnnotBlock::from_annot_rows(vec![(row("1234"), ()), (row("2134"), ())]).unwrap();
    CallSpec {
        call: Call::new('-', String::from("LE"), 1, block),
        calling_positions: vec!['A', 'B', 'C', 'D'],
    }
}

fn annot(sub_lead_index: usize, call: bool) -> Annot {
    Annot {
        is_lead_end: false,
        method: Some(MethodRef { method_index: 0, sub_lead_index }),
        call: if call { Some(CallRef { call_index: 0, row_index: 0 }) } else { None },
    }
}

fn frag(start: &str) -> Frag {
    let block = AnnotBlock::from_annot_rows(vec![
        (row("1234"), annot(0, false)),
        (row("2143"), annot(1, true)),
        (row("2413"), annot(2, false)),
        (row("4231"), Annot::default()),
    ])
    .unwrap();
    Frag { start_row: row(start), block, is_muted: false }
}

fn spec(frags: Vec<Frag>) -> Spec {
    Spec {
        frags,
        part_heads: PartHeads::parse("1234", Stage::new(4)).unwrap(),
        methods: vec![method()],
        calls: vec![call()],
        stage: Stage::new(4),
    }
}

#[test]
fn derived_state_of_false_composition() {
    let d = DerivedState::from_spec(&spec(vec![frag("1234"), frag("2143")]));
    assert_eq!(d.frags.len(), 2);
    assert_eq!(d.stats.part_len, 6);
    // `1234` and `2143` each occur twice
    assert_eq!(d.stats.num_false_rows, 4);
    assert_eq!(d.stats.num_false_groups, 1);
    let ranges: Vec<(usize, usize, usize)> =
        d.frags[0].false_row_ranges.iter().map(|r| (r.range.start, r.range.end, r.group)).collect();
    assert_eq!(ranges, vec![(0, 2, 0)]);
    let ranges: Vec<(usize, usize, usize)> =
        d.frags[1].false_row_ranges.iter().map(|r| (r.range.start, r.range.end, r.group)).collect();
    assert_eq!(ranges, vec![(0, 2, 0)]);
    assert!(d.frag_links.is_empty());
    assert_eq!(d.methods[0].num_rows, 6);
    assert_eq!(d.methods[0].num_proved_rows, 6);
    assert_eq!(d.calls[0].count, 2);
    assert_eq!(d.is_method_used(0), Some(true));
    assert_eq!(d.is_method_used(1), None);
    assert_eq!(d.get_row(0, 1, 2).unwrap().to_string(), "1324");
    assert!(d.get_row(1, 1, 2).is_none());
    assert_eq!(d.get_part_head(0).unwrap().to_string(), "1234");
    assert_eq!(d.stage, 4);
    // One display line per expanded row, all drawn as blue-lines
    assert_eq!(d.frags[0].display_rows.len(), 4);
    assert_eq!(d.frags[0].line_ranges.len(), 1);
    assert_eq!(d.frags[0].line_ranges[0].range, 0..4);
    assert!(!d.frags[0].display_rows[2].use_bell_names);
    assert_eq!(d.source_row_ind(0, 3), 3);
}

#[test]
fn fragment_links() {
    let s = spec(vec![frag("1234"), frag("4231")]);
    let d = DerivedState::from_spec(&s);
    // The second fragment repeats `2413` and `2143` from the first
    assert_eq!(d.stats.num_false_rows, 4);
    assert_eq!(d.stats.num_false_groups, 1);
    let links: Vec<(usize, usize, usize)> = d.frag_links.iter().map(|l| (l.from, l.to, l.group)).collect();
    assert_eq!(links, vec![(0, 1, 0), (1, 0, 1)]);
    assert_eq!(d.frags[0].link_groups.bottom, Some(0));
    assert_eq!(d.frags[0].link_groups.top, Some(1));
    assert_eq!(d.frags[1].link_groups.bottom, Some(1));
    assert_eq!(d.frags[1].link_groups.top, Some(0));

    let exp = s.expand();
    let (links, groups) = gen_frag_links(&exp, &s.part_heads);
    assert_eq!(links.len(), 2);
    assert_eq!(groups.len(), 2);
}
