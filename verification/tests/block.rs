use jigsaw::bellcore::bell::Bell;
use jigsaw::bellcore::block::{Block, ParseError};
use jigsaw::bellcore::row::{InvalidRowError, Row};
use jigsaw::bellcore::stage::Stage;

fn row(s: &str) -> Row {
    Row::parse(s).unwrap()
}

fn rows_of(b: &Block) -> Vec<Row> {
    b.rows().into_iter().cloned().collect()
}

#[test]
fn block_parse_from_rounds() {
    let b = Block::parse("1234\n2143\n1324").unwrap();
    assert_eq!(b.len(), 2);
    assert_eq!(rows_of(&b), vec![row("1234"), row("2143"), row("1324")]);
}

#[test]
fn block_parse_transposes_to_rounds() {
    // The rows are solved against the first row, so the block starts from rounds
    let b = Block::parse("2134\n1234\n1243").unwrap();
    assert_eq!(rows_of(&b), vec![row("1234"), row("2134"), row("2143")]);
    assert_eq!(b.stage(), Stage::new(4));
}

#[test]
fn block_parse_line_endings() {
    // A final line feed ends the last line, and carriage returns name no bell
    let b = Block::parse("1234\r\n2143\r\n").unwrap();
    assert_eq!(rows_of(&b), vec![row("1234"), row("2143")]);
    let b = Block::parse("12 34\n21|43").unwrap();
    assert_eq!(rows_of(&b), vec![row("1234"), row("2143")]);
}

#[test]
fn block_parse_errors() {
    assert_eq!(Block::parse(""), Err(ParseError::ZeroLengthBlock));
    assert_eq!(Block::parse("1234"), Err(ParseError::ZeroLengthBlock));
    assert_eq!(Block::parse("1234\n"), Err(ParseError::ZeroLengthBlock));
    assert_eq!(
        Block::parse("1234\n1123\n4321"),
        Err(ParseError::InvalidRow {
            line: 1,
            err: InvalidRowError::DuplicateBell(Bell::from_name('1').unwrap()),
        })
    );
    assert_eq!(
        Block::parse("1234\n2143\n12345"),
        Err(ParseError::IncompatibleStages {
            line: 2,
            first_stage: Stage::new(4),
            different_stage: Stage::new(5),
        })
    );
    // The first bad line gives the error, even when only one line was given
    assert_eq!(
        Block::parse("1294"),
        Err(ParseError::InvalidRow {
            line: 0,
            err: InvalidRowError::BellOutOfStage(Bell::from_name('9').unwrap(), Stage::new(4)),
        })
    );
}

#[test]
fn from_annot_rows_of_nothing_is_zero_length() {
    let rows: Vec<(Row, ())> = Vec::new();
    assert!(matches!(Block::from_annot_rows(rows), Err(ParseError::ZeroLengthBlock)));
}

#[test]
fn parsed_block_starts_with_rounds() {
    let b = Block::parse("4321\n3412\n2143").unwrap();
    assert!(b.first_annot_row().0.is_rounds());
    assert_eq!(b.first_annot_row().0.stage(), b.stage());
}
