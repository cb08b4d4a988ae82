use jigsaw::bellcore::block::AnnotBlock;
use jigsaw::bellcore::call::Call;
use jigsaw::bellcore::method::Method;
use jigsaw::bellcore::row::Row;
use jigsaw::bellcore::stage::Stage;
use jigsaw::proj::comp::Comp;
use jigsaw::proj::spec::{Annot, CallRef, CallSpec, Frag, MethodRef, MethodSpec, PartHeads, Spec};

fn row(s: &str) -> Row {
    Row::parse(s).unwrap()
}

fn method() -> MethodSpec {
    let lead = AnnotBlock::from_annot_rows(vec![
        (row("1234"), None),
        (row("2143"), None),
        (row("2413"), Some(String::from("LE"))),
        (row("4231"), None),
    ])
    .unwrap();
    MethodSpec {
        shorthand: String::from("X"),
        place_not_string: String::from("x14x"),
        method: Method::new(String::from("Example"), lead),
    }
}

fn call() -> CallSpec {
    let block = AnnotBlock::from_annot_rows(vec![(row("1234"), ()), (row("2134"), ())]).unwrap();
    CallSpec {
        call: Call::new('-', String::from("LE"), 1, block),
        calling_positions: vec!['A', 'B', 'C', 'D'],
    }
}

fn annot(sub_lead_index: usize) -> Annot {
    Annot {
        is_lead_end: false,
        method: Some(MethodRef { method_index: 0, sub_lead_index }),
        call: if sub_lead_index == 1 { Some(CallRef { call_index: 0, row_index: 0 }) } else { None },
    }
}

fn frag(start: &str) -> Frag {
    let block = AnnotBlock::from_annot_rows(vec![
        (row("1234"), annot(0)),
        (row("2143"), annot(1)),
        (row("2413"), annot(2)),
        (row("4231"), Annot::default()),
    ])
    .unwrap();
    Frag { start_row: row(start), block, is_muted: false }
}

fn comp(part_heads: &str) -> Comp {
    Comp::from_spec(Spec {
        frags: vec![frag("1234"), frag("3412")],
        part_heads: PartHeads::parse(part_heads, Stage::new(4)).unwrap(),
        methods: vec![method()],
        calls: vec![call()],
        stage: Stage::new(4),
    })
}

fn seen_row(c: &Comp, part: usize, frag: usize, row: usize) -> String {
    c.derived_state().get_row(part, frag, row).unwrap().to_string()
}

#[test]
fn comp_editor_states() {
    let mut c = comp("1234");
    assert!(c.is_state_idle());
    c.start_dragging(1);
    assert!(c.is_state_dragging());
    assert!(!c.is_state_idle());
    assert_eq!(c.frag_being_dragged(), 1);
    assert_eq!(c.finish_dragging(), 1);
    assert!(c.is_state_idle());
    // Dropping a fragment is an undo step of its own
    c.undo();
    c.redo();
    assert_eq!(c.spec().frags.len(), 2);
    let s = c.start_transposing(0, 1);
    assert_eq!(s, "2143");
    assert!(c.is_state_transposing());
    c.exit_transposing();
    assert!(c.is_state_idle());
}

#[test]
fn comp_transposing() {
    let mut c = comp("4123");
    c.set_current_part(1);
    assert_eq!(c.current_part(), 1);
    // Part 1 is seen through the part head 4123
    assert_eq!(seen_row(&c, 1, 0, 1), "1432");
    assert_eq!(c.start_transposing(0, 1), "1432");
    // A row that does not parse leaves everything as it was
    assert!(!c.finish_transposing("1123"));
    assert!(c.is_state_transposing());
    assert!(c.finish_transposing("1234"));
    assert!(c.is_state_idle());
    assert_eq!(seen_row(&c, 1, 0, 1), "1234");
    assert_eq!(seen_row(&c, 0, 0, 1), "2341");
    // The other fragment is untouched, and the transposition can be undone
    assert_eq!(c.spec().frags[1].start_row, row("3412"));
    c.undo();
    assert_eq!(seen_row(&c, 1, 0, 1), "1432");
    c.redo();
    assert_eq!(seen_row(&c, 1, 0, 1), "1234");
}

#[test]
fn comp_row_parse_err() {
    let c = comp("1234");
    assert_eq!(c.row_parse_err("4321"), "");
    assert_eq!(c.row_parse_err("21"), "");
    assert_eq!(c.row_parse_err("1123"), "Bell '1' appears twice.");
    assert_eq!(c.row_parse_err("125"), "Bell '5' is not within the stage Minimus");
    assert_eq!(c.row_parse_err("13"), "Bell '2' is missing");
}

#[test]
fn comp_edits_and_history() {
    let mut c = comp("1234");
    assert_eq!(c.derived_state().stats.part_len, 6);
    c.delete_frag(0);
    assert_eq!(c.spec().frags.len(), 1);
    assert_eq!(c.spec().frags[0].start_row, row("3412"));
    assert_eq!(c.derived_state().stats.part_len, 3);
    c.undo();
    assert_eq!(c.spec().frags.len(), 2);
    assert_eq!(c.derived_state().stats.part_len, 6);
    // Undoing past the start does nothing
    c.undo();
    assert_eq!(c.spec().frags.len(), 2);
    c.redo();
    assert_eq!(c.spec().frags.len(), 1);
    c.redo();
    assert_eq!(c.spec().frags.len(), 1);
    c.undo();
    // An edit drops what could have been redone
    c.join_frags(1, 0);
    assert_eq!(c.spec().frags.len(), 1);
    assert_eq!(c.spec().frags[0].start_row, row("3412"));
    assert_eq!(c.spec().frags[0].block.len(), 6);
    assert_eq!(c.derived_state().stats.part_len, 6);
    c.redo();
    assert_eq!(c.spec().frags[0].block.len(), 6);
}

#[test]
fn comp_split_mute_and_solo() {
    let mut c = comp("1234");
    assert!(c.room_for_rows(1));
    assert_eq!(c.split_frag(5, 1), "Frag #5 doens't exist; there are only 2 frags.");
    assert_eq!(c.split_frag(0, 0), "Can't create 0-length fragment");
    assert_eq!(c.split_frag(0, 3), "Can't create 0-length fragment");
    assert_eq!(c.split_frag(0, 1), "");
    assert_eq!(c.spec().frags.len(), 3);
    assert_eq!(c.spec().frags[0].block.len(), 1);
    assert_eq!(c.spec().frags[2].block.len(), 2);
    assert_eq!(c.spec().frags[2].start_row, row("2143"));
    assert_eq!(c.derived_state().stats.part_len, 6);
    c.toggle_frag_mute(1);
    assert!(c.spec().frags[1].is_muted);
    assert_eq!(c.derived_state().stats.part_len, 3);
    c.toggle_frag_solo(1);
    let mutes: Vec<bool> = c.spec().frags.iter().map(|f| f.is_muted).collect();
    assert_eq!(mutes, vec![true, false, true]);
    c.toggle_frag_solo(1);
    let mutes: Vec<bool> = c.spec().frags.iter().map(|f| f.is_muted).collect();
    assert_eq!(mutes, vec![false, false, false]);
}

#[test]
fn comp_add_frag() {
    let mut c = comp("1234");
    assert_eq!(c.new_frag_len(false, 0), 4);
    assert_eq!(c.new_frag_len(true, 0), 7);
    assert!(c.room_for_rows(7));
    assert!(!c.room_for_rows(usize::MAX));
    assert_eq!(c.add_frag(true, 0), 2);
    let f = &c.spec().frags[2];
    assert_eq!(f.start_row, row("1234"));
    assert!(!f.is_muted);
    let rows: Vec<String> = f.block.rows().iter().map(|r| r.to_string()).collect();
    assert_eq!(rows, vec!["1234", "2143", "2413", "4231", "2413", "2143", "1234"]);
    assert_eq!(c.derived_state().stats.part_len, 12);
    assert_eq!(c.add_frag(false, 0), 3);
    assert_eq!(c.spec().frags[3].block.len(), 3);
    c.undo();
    c.undo();
    assert_eq!(c.spec().frags.len(), 2);
}

#[test]
fn spec_new_frags() {
    let mut s = Spec {
        frags: vec![frag("1234")],
        part_heads: PartHeads::parse("1234", Stage::new(4)).unwrap(),
        methods: vec![method()],
        calls: vec![call()],
        stage: Stage::new(4),
    };
    let lead = s.new_frag(false, 0);
    assert_eq!(lead.block.len(), 3);
    let annots: Vec<(bool, Option<usize>)> = lead
        .block
        .annot_rows()
        .iter()
        .map(|(_, a)| (a.is_lead_end, a.method.map(|m| m.sub_lead_index)))
        .collect();
    assert_eq!(annots, vec![(false, Some(0)), (false, Some(1)), (true, Some(2)), (false, None)]);
    let course = lead.expand_to_round_block();
    assert_eq!(course.block.len(), 6);
    assert_eq!(course.block.leftover_row().0, row("1234"));
    assert_eq!(s.add_frag(false, 0), 1);
    s.extend_frag_end(1, 0, true);
    assert_eq!(s.frags[1].block.len(), 9);
    // A lead followed by a whole course ends where the lead did
    assert_eq!(s.frags[1].block.leftover_row().0, row("4231"));
}

#[test]
fn comp_extend_frag() {
    let mut c = comp("1234");
    let extra = c.new_frag_len(false, 0) - 1;
    assert!(c.room_for_rows(extra));
    c.extend_frag(0, 0, false);
    assert_eq!(c.spec().frags[0].block.len(), 6);
    assert_eq!(c.spec().frags[1].block.len(), 3);
    assert_eq!(c.derived_state().stats.part_len, 9);
    // The added lead follows on from the leftover row of the fragment
    assert_eq!(c.spec().frags[0].block.leftover_row().0, row("1234"));
    c.undo();
    assert_eq!(c.spec().frags[0].block.len(), 3);
}

#[test]
fn comp_part_head_spec() {
    let mut c = comp("1234");
    assert!(c.room_for_parts(4));
    assert!(!c.room_for_parts(usize::MAX));
    assert_eq!(c.parse_part_head_spec("1234"), "");
    // Unchanged part heads make no undo step
    c.undo();
    assert_eq!(c.spec().frags.len(), 2);
    assert_eq!(c.parse_part_head_spec("1123"), "Bell '1' appears twice.");
    assert_eq!(c.spec().part_heads.len(), 1);
    assert_eq!(c.parse_part_head_spec("4123"), "");
    assert_eq!(c.spec().part_heads.len(), 4);
    assert_eq!(c.spec().part_heads.spec_string(), "4123");
    assert_eq!(c.derived_state().part_heads.len(), 4);
    assert_eq!(c.derived_state().stats.part_len, 6);
    c.undo();
    assert_eq!(c.spec().part_heads.len(), 1);
}
