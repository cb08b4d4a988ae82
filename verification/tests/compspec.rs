use jigsaw::bellcore::row::Row;
use jigsaw::bellcore::stage::Stage;
use jigsaw::compspec::{
    expand_fragment, expand_methods, expand_music_group, generate_stats, Chunk, CompMethod, CompSpec, EditError, ExpandedFrag,
    Fragment, FullState, MusicGroupInner, MusicSpec, RowData, Stats,
};
use jigsaw::proj::spec::PartHeads;

fn row(s: &str) -> Row {
    Row::parse(s).unwrap()
}

fn plain_bob_minimus() -> CompMethod {
    CompMethod::with_lead_end_ruleoff(String::from("Plain Bob"), String::from("P"), Stage::minimus(), "x14x14,12")
        .unwrap()
}

fn strings(rows: &[Row]) -> Vec<String> {
    rows.iter().map(|r| r.to_string()).collect()
}

#[test]
fn method_from_place_notation() {
    let m = plain_bob_minimus();
    assert_eq!(m.lead_len(), 8);
    assert_eq!(m.name(), "Plain Bob");
    assert_eq!(m.shorthand(), "P");
    // The ruleoff is at the lead end, i.e. below the last row of the lead
    assert!(m.is_ruleoff_below(7));
    assert!(!m.is_ruleoff_below(3));
}

#[test]
fn bad_place_notation_gives_no_method() {
    assert!(CompMethod::with_lead_end_ruleoff(String::new(), String::new(), Stage::minimus(), "x19").is_none());
}

#[test]
fn expand_one_part_rings_across_lead_ends() {
    let methods = vec![plain_bob_minimus()];
    let mut rows = vec![row("1234")];
    let mut data: Vec<RowData> = Vec::new();
    // Ring from the sixth row of a lead, across the lead end
    let chunk = Chunk::Method { method: 0, start_sub_lead_index: 6, length: 4 };
    chunk.expand_one_part(&methods, &mut rows, &mut data, true);
    // Rows 6, 7 of the lead (transposed to start at rounds), then rows 0, 1 of the next lead
    assert_eq!(strings(&rows), vec!["1234", "2143", "2134", "1243", "1423"]);
    let subs: Vec<usize> = data.iter().map(|d| d.method_source.unwrap().1).collect();
    assert_eq!(subs, vec![6, 7, 0, 1]);
    assert!(data.iter().all(|d| d.is_proved && d.call_source.is_none()));
}

#[test]
fn expand_fragment_into_parts() {
    let methods = vec![plain_bob_minimus()];
    let frag = Fragment {
        start_row: row("1234"),
        chunks: vec![Chunk::Method { method: 0, start_sub_lead_index: 0, length: 8 }],
        is_proved: true,
    };
    let part_heads = PartHeads::parse("1342", Stage::minimus()).unwrap();
    let e = expand_fragment(&frag, &part_heads, &methods);
    assert_eq!(e.rows_per_part.len(), 3);
    assert_eq!(
        strings(&e.rows_per_part[0]),
        vec!["1234", "2143", "2413", "4231", "4321", "3412", "3142", "1324", "1342"]
    );
    // The second part is the first pre-multiplied by the part head 1342
    assert_eq!(strings(&e.rows_per_part[1])[0], "1342");
    assert_eq!(strings(&e.rows_per_part[1])[8], "1423");
    assert_eq!(e.row_data.len(), 9);
    assert!(!e.row_data[8].is_proved);
    assert!(e.row_data[8].method_source.is_none());
    assert_eq!(e.len(), 8);
    assert_eq!(generate_stats(&[e]).part_len, 8);
}

#[test]
fn muted_fragments_have_no_proved_length() {
    let e = ExpandedFrag { rows_per_part: vec![], row_data: vec![RowData { method_source: None, call_source: None, is_proved: false }; 5], is_proved: false };
    assert_eq!(e.len(), 0);
    assert_eq!(generate_stats(&[e]).part_len, 0);
    assert_eq!(Stats::default().part_len, 0);
}

#[test]
fn example_composition() {
    let c = CompSpec::example().unwrap();
    assert_eq!(c.stage.as_usize(), 8);
    assert_eq!(c.methods.len(), 7);
    assert_eq!(c.methods[0].name(), "Deva");
    assert_eq!(c.methods[3].shorthand(), "Y");
    assert_eq!(c.fragments.len(), 1);
    assert_eq!(c.fragments[0].chunks.len(), 5);
    assert_eq!(c.part_heads.len(), 7);
    let e = expand_fragment(&c.fragments[0], &c.part_heads, &c.methods);
    assert_eq!(e.rows_per_part.len(), 7);
    assert_eq!(e.rows_per_part[0].len(), 5 * 32 + 1);
    assert_eq!(e.rows_per_part[0][0].to_string(), "12345678");
    assert_eq!(e.rows_per_part[1][0].to_string(), "18234567");
    assert_eq!(e.len(), 160);
}

#[test]
fn music_group_counts_matched_places() {
    let data = |p: bool| RowData { method_source: None, call_source: None, is_proved: p };
    // One fragment of two parts, each with three rows (the last is the leftover, never proved)
    let frags = vec![ExpandedFrag {
        rows_per_part: vec![vec![], vec![]],
        row_data: vec![data(true), data(true), data(false)],
        is_proved: true,
    }];
    let matches = vec![vec![
        vec![Some(vec![2, 3]), None, Some(vec![0])],
        vec![None, Some(vec![3, 3]), None],
    ]];
    let spec = MusicSpec::Pattern { name: String::from("56s"), max_count: 24, matches };
    let mut counters = vec![vec![vec![vec![0u8; 4]; 3], vec![vec![254u8; 4]; 3]]];
    let g = expand_music_group(&spec, &frags, &mut counters, 4);
    assert_eq!(g.name, "56s");
    assert_eq!(g.max_count, 24);
    let locs: Vec<(usize, usize, usize)> = match &g.inner {
        MusicGroupInner::Leaf { rows_matched } => {
            rows_matched.iter().map(|l| (l.frag_index.index, l.part_index.index, l.row_index.index)).collect()
        }
        MusicGroupInner::Group { .. } => panic!("a pattern expands to a leaf"),
    };
    // The match on the leftover row is highlighted but not counted as a proved row
    assert_eq!(locs, vec![(0, 0, 0), (0, 1, 1)]);
    assert_eq!(counters[0][0][0], vec![0, 0, 1, 1]);
    assert_eq!(counters[0][0][2], vec![1, 0, 0, 0]);
    // Counters saturate at 255
    assert_eq!(counters[0][1][1], vec![254, 254, 254, 255]);
    assert_eq!(counters[0][1][0], vec![254, 254, 254, 254]);
}

#[test]
fn music_groups_total_their_sub_groups() {
    let data = RowData { method_source: None, call_source: None, is_proved: true };
    let frags = vec![ExpandedFrag { rows_per_part: vec![vec![]], row_data: vec![data, data], is_proved: true }];
    let pattern = |name: &str, max: usize, m: Vec<Option<Vec<usize>>>| MusicSpec::Pattern {
        name: String::from(name),
        max_count: max,
        matches: vec![vec![m]],
    };
    let spec = MusicSpec::Group {
        name: String::from("runs"),
        sub_groups: vec![
            pattern("front", 6, vec![Some(vec![0, 1, 2]), None]),
            pattern("back", 6, vec![Some(vec![1, 2, 3]), Some(vec![1, 2, 3])]),
        ],
    };
    let mut counters = vec![vec![vec![vec![0u8; 4]; 2]]];
    let g = expand_music_group(&spec, &frags, &mut counters, 4);
    assert_eq!(g.name, "runs");
    assert_eq!(g.max_count, 12);
    match &g.inner {
        MusicGroupInner::Group { sub_groups, count } => {
            assert_eq!(*count, 3);
            assert_eq!(sub_groups.len(), 2);
            assert_eq!(sub_groups[1].name, "back");
        }
        MusicGroupInner::Leaf { .. } => panic!("a group expands to a group"),
    }
    assert_eq!(counters[0][0][0], vec![1, 2, 2, 1]);
    assert_eq!(counters[0][0][1], vec![0, 1, 1, 1]);
}

#[test]
fn full_state_of_example() {
    let c = CompSpec::example().unwrap();
    let full = FullState::new(&c);
    assert_eq!(full.stage.as_usize(), 8);
    assert_eq!(full.fragments.len(), 1);
    assert_eq!(full.stats.part_len, 160);
    assert_eq!(full.methods.len(), 7);
    // A lead of Deva (32 rows) in each of the 7 parts; no Bristol
    assert_eq!(full.methods[0].num_rows, 224);
    assert_eq!(full.methods[0].num_proved_rows, 224);
    assert_eq!(full.methods[1].num_rows, 0);
    let mut other = FullState::new(&CompSpec::empty(Stage::major()));
    assert_eq!(other.stats.part_len, 0);
    other.update(&c);
    assert_eq!(other.stats.part_len, 160);
}

#[test]
fn method_counts_skip_muted_rows_for_proved_counts() {
    let d = |m: Option<usize>, p: bool| RowData { method_source: m.map(|m| (m, 0)), call_source: None, is_proved: p };
    let frags = vec![ExpandedFrag {
        rows_per_part: vec![],
        row_data: vec![d(Some(1), true), d(Some(1), false), d(Some(0), true), d(None, false)],
        is_proved: true,
    }];
    let v = expand_methods(2, &frags, 3);
    assert_eq!((v[0].num_rows, v[0].num_proved_rows), (3, 3));
    assert_eq!((v[1].num_rows, v[1].num_proved_rows), (6, 3));
}

#[test]
fn editing_a_comp_spec() {
    let mut c = CompSpec::example().unwrap();
    let f = c.fragments[0].start_row.clone();
    c.fragments.push(Fragment { start_row: f, chunks: vec![], is_proved: true });
    assert_eq!(c.solo_frag(5), Err(EditError::FragOutOfRange { idx: 5, len: 2 }));
    assert_eq!(c.solo_frag(1), Ok(()));
    assert!(!c.fragments[0].is_proved && c.fragments[1].is_proved);
    // Soloing the only proved fragment proves everything again
    assert_eq!(c.solo_frag(1), Ok(()));
    assert!(c.fragments[0].is_proved && c.fragments[1].is_proved);
    assert_eq!(c.fragments[1].toggle_mute(), Ok(()));
    assert!(!c.fragments[1].is_proved);
    assert_eq!(c.delete_fragment(1), Ok(()));
    assert_eq!(c.fragments.len(), 1);
    assert_eq!(c.delete_fragment(1), Err(EditError::FragOutOfRange { idx: 1, len: 1 }));
    let e = CompSpec::empty(jigsaw::bellcore::stage::Stage::minor());
    assert_eq!(e.part_heads.len(), 1);
    assert!(e.fragments.is_empty() && e.methods.is_empty());
    c.set_part_heads(jigsaw::proj::spec::PartHeads::parse("12345678", jigsaw::bellcore::stage::Stage::major()).unwrap());
    assert_eq!(c.part_heads.len(), 1);
}

#[test]
fn splitting_a_fragment_keeps_its_rows() {
    let mut c = CompSpec::example().unwrap();
    let before: Vec<String> = c.fragments[0].rows_in_one_part(&c.methods).iter().map(|r| r.to_string()).collect();
    assert_eq!(before.len(), 161);
    assert_eq!(c.split_fragment(3, 40), Err(EditError::FragOutOfRange { idx: 3, len: 1 }));
    assert_eq!(c.split_fragment(0, 160), Err(EditError::RowOutOfRange { frag_idx: 0, row_idx: 160, frag_len: 160 }));
    assert_eq!(c.split_fragment(0, -1), Err(EditError::RowOutOfRange { frag_idx: 0, row_idx: -1, frag_len: 160 }));
    assert_eq!(c.split_fragment(0, 40), Ok(()));
    assert_eq!(c.fragments.len(), 2);
    assert_eq!(c.fragments[0].chunks.len(), 2);
    assert_eq!(c.fragments[0].chunks[1], Chunk::Method { method: 3, start_sub_lead_index: 0, length: 8 });
    assert_eq!(c.fragments[1].chunks[0], Chunk::Method { method: 3, start_sub_lead_index: 8, length: 24 });
    assert_eq!(c.fragments[1].chunks.len(), 4);
    let first: Vec<String> = c.fragments[0].rows_in_one_part(&c.methods).iter().map(|r| r.to_string()).collect();
    let second: Vec<String> = c.fragments[1].rows_in_one_part(&c.methods).iter().map(|r| r.to_string()).collect();
    assert_eq!(first, before[..41].to_vec());
    assert_eq!(second, before[40..].to_vec());
}
