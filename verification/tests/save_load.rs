use jigsaw::bellcore::row::Row;
use jigsaw::bellcore::block::AnnotBlock;
use jigsaw::bellcore::method::Method;
use jigsaw::bellcore::stage::Stage;
use jigsaw::proj::spec::{Annot, Frag, MethodSpec, PartHeads, Spec};
use jigsaw::save_load::{range_compress, record_history, AddrDedup, Dedup};

fn ranges(v: Vec<usize>) -> Vec<(usize, usize)> {
    range_compress(v).into_iter().map(|r| (r.start, r.end)).collect()
}

#[test]
fn range_compress_runs() {
    assert_eq!(ranges(vec![1, 2, 3, 4, 10, 11, 12]), vec![(1, 5), (10, 13)]);
    assert_eq!(ranges(vec![]), vec![]);
    assert_eq!(ranges(vec![5]), vec![(5, 6)]);
    assert_eq!(ranges(vec![3, 2, 1]), vec![(3, 4), (2, 3), (1, 2)]);
    assert_eq!(ranges(vec![0, 1, 1, 2]), vec![(0, 2), (1, 3)]);
}

#[test]
fn dedup_interns_by_value() {
    let mut d: Dedup<Row> = Dedup::new();
    assert_eq!(d.intern(Row::parse("123").unwrap()), 0);
    assert_eq!(d.intern(Row::parse("213").unwrap()), 1);
    assert_eq!(d.intern(Row::parse("123").unwrap()), 0);
    let ids = d.intern_iter(vec![
        Row::parse("312").unwrap(),
        Row::parse("213").unwrap(),
        Row::parse("312").unwrap(),
    ]);
    assert_eq!(ids, vec![2, 1, 2]);
    let rows = d.into_vec();
    assert_eq!(rows, vec![Row::parse("123").unwrap(), Row::parse("213").unwrap(), Row::parse("312").unwrap()]);
}

#[test]
fn addr_dedup_interns_by_address() {
    let mut d: AddrDedup<&str> = AddrDedup::new();
    assert_eq!(d.intern(100, "a"), 0);
    assert_eq!(d.intern(200, "b"), 1);
    assert_eq!(d.intern(100, "c"), 0);
    assert_eq!(d.lookup(200), Some(1));
    assert_eq!(d.lookup(300), None);
    assert_eq!(d.intern_with(300, || "d"), 2);
    assert_eq!(d.intern_with(100, || "e"), 0);
    assert_eq!(d.intern_iter(vec![(400, "f"), (200, "g")]), vec![3, 1]);
    assert_eq!(d.into_vec(), vec!["a", "b", "d", "f"]);
}


fn history_spec(starts: &[&str]) -> Spec {
    let block = AnnotBlock::from_annot_rows(vec![
        (Row::parse("1234").unwrap(), Annot::default()),
        (Row::parse("2143").unwrap(), Annot::default()),
        (Row::parse("1234").unwrap(), Annot::default()),
    ])
    .unwrap();
    let lead = AnnotBlock::from_annot_rows(vec![
        (Row::parse("1234").unwrap(), None),
        (Row::parse("2143").unwrap(), Some(String::from("LE"))),
    ])
    .unwrap();
    Spec {
        frags: starts
            .iter()
            .map(|s| Frag { start_row: Row::parse(s).unwrap(), block: block.clone(), is_muted: false })
            .collect(),
        part_heads: PartHeads::parse("1234", Stage::new(4)).unwrap(),
        methods: vec![MethodSpec {
            shorthand: String::from("X"),
            place_not_string: String::from("x"),
            method: Method::new(String::from("Cross"), lead),
        }],
        stage: Stage::new(4),
        calls: vec![],
    }
}

#[test]
fn history_record_shares_data() {
    let specs = vec![history_spec(&["1234", "4321"]), history_spec(&["1234", "4321", "2143"])];
    // The first two fragments of each specification are the same values, as is the method
    let frag_addrs = vec![vec![100, 101], vec![100, 101, 102]];
    let method_addrs = vec![vec![7], vec![7]];
    let rec = record_history(&specs, &frag_addrs, &method_addrs);
    assert_eq!(rec.specs.len(), 2);
    assert_eq!(rec.frags.len(), 3);
    assert_eq!(rec.methods.len(), 1);
    assert_eq!(rec.specs[0].frags, vec![0, 1]);
    assert_eq!(rec.specs[1].frags, vec![0, 1, 2]);
    assert_eq!(rec.specs[1].methods, vec![0]);
    assert_eq!(rec.specs[0].stage, 4);
    assert_eq!(rec.strs[rec.specs[0].part_head_str], "1234");
    assert_eq!(rec.strs[rec.methods[0].place_not_string], "x");
    assert_eq!(rec.methods[0].name, "Cross");
    // 1234, 2143, 4321, 3412 are the only rows
    assert_eq!(rec.rows.len(), 4);
    let decoded: Vec<String> = rec.frags[1].rows.iter().map(|r| rec.rows[*r].to_string()).collect();
    assert_eq!(decoded, vec!["4321", "3412", "4321"]);
    let decoded: Vec<String> = rec.frags[2].rows.iter().map(|r| rec.rows[*r].to_string()).collect();
    assert_eq!(decoded, vec!["2143", "1234", "2143"]);
}
