use jigsaw::bellcore::row::IncompatibleStages;
use jigsaw::projcore::perm::IncompatibleStages as PermIncompatibleStages;
use jigsaw::projcore::row::InvalidRowErr;
use jigsaw::bellcore::bell_iter::BellIter;
use jigsaw::bellcore::bell::Bell;
use jigsaw::bellcore::row::{InvalidRowError, Row};
use jigsaw::bellcore::stage::Stage;

#[test]
fn parse_with_stage_ok() {
    for (inp_str, stage, exp_row) in &[
        ("321", 3, "321"),
        ("321", 6, "321456"),
        ("1342", 8, "13425678"),
        ("123564", 10, "1235647890"),
        ("21", 5, "21345"),
        ("", 4, "1234"),
    ] {
        assert_eq!(
            Row::parse_with_stage(inp_str, Stage::new(*stage)).unwrap(),
            Row::parse(exp_row).unwrap()
        );
    }
}

#[test]
fn parse_with_stage_err() {
    // Input rows with duplicated bells
    for (inp_str, stage, dup_bell) in &[
        ("322", 3, '2'),
        ("11", 12, '1'),
        ("512435", 6, '5'),
        ("331212", 6, '3'),
    ] {
        assert_eq!(
            Row::parse_with_stage(inp_str, Stage::new(*stage)),
            Err(InvalidRowError::DuplicateBell(Bell::from_name(*dup_bell).unwrap()))
        );
    }
    // Input rows which contain bells that don't fit into the specified stage
    for (inp_str, stage, bell_out_of_range) in &[("0", 3, '0'), ("3218", 6, '8'), ("12345678", 3, '4')] {
        assert_eq!(
            Row::parse_with_stage(inp_str, Stage::new(*stage)),
            Err(InvalidRowError::BellOutOfStage(
                Bell::from_name(*bell_out_of_range).unwrap(),
                Stage::new(*stage)
            ))
        );
    }
    // Input rows with missing bells
    for (inp_str, stage, missing_bell) in &[("13", 3, '2'), ("14", 6, '2'), ("14567892", 9, '3')] {
        assert_eq!(
            Row::parse_with_stage(inp_str, Stage::new(*stage)),
            Err(InvalidRowError::MissingBell(Bell::from_name(*missing_bell).unwrap()))
        );
    }
}

#[test]
fn rounds_backrounds_queens() {
    assert_eq!(Row::rounds(Stage::new(4)).to_string(), "1234");
    assert_eq!(Row::rounds(Stage::new(9)).to_string(), "123456789");
    assert_eq!(Row::backrounds(Stage::new(4)).to_string(), "4321");
    assert_eq!(Row::backrounds(Stage::new(9)).to_string(), "987654321");
    assert_eq!(Row::queens(Stage::new(4)).to_string(), "1324");
    assert_eq!(Row::queens(Stage::new(9)).to_string(), "135792468");
}

#[test]
fn parse_examples() {
    assert_eq!(Row::parse("12543").unwrap().to_string(), "12543");
    assert_eq!(Row::parse("4321\t[65 78]").unwrap().to_string(), "43216578");
    assert_eq!(Row::parse("3|2|1  6|5|4  9|8|7").unwrap().to_string(), "321654987");
    assert_eq!(Row::parse("13579 | 24680").unwrap().stage(), Stage::new(10));
    assert_eq!(
        Row::parse("112345"),
        Err(InvalidRowError::DuplicateBell(Bell::from_number(1).unwrap()))
    );
    assert_eq!(
        Row::parse("12745"),
        Err(InvalidRowError::BellOutOfStage(Bell::from_number(7).unwrap(), Stage::new(5)))
    );
}

#[test]
fn from_vec_checks() {
    let b = |c| Bell::from_name(c).unwrap();
    assert_eq!(Row::from_vec(vec![b('4'), b('2'), b('1'), b('3')]).unwrap().to_string(), "4213");
    assert_eq!(
        Row::from_vec(vec![b('4'), b('2'), b('1'), b('4')]),
        Err(InvalidRowError::DuplicateBell(b('4')))
    );
    let bells: Vec<Bell> = [0, 3, 7, 2, 1].iter().copied().map(Bell::from_index).collect();
    assert_eq!(
        Row::from_iter_checked(&bells),
        Err(InvalidRowError::BellOutOfStage(b('8'), Stage::new(5)))
    );
    let bells: Vec<Bell> = [0, 3, 4, 2, 1].iter().copied().map(Bell::from_index).collect();
    assert_eq!(Row::from_iter_checked(&bells).unwrap().to_string(), "14532");
}

#[test]
fn multiplication() {
    let a = Row::parse("13425678").unwrap();
    let b = Row::parse("43217568").unwrap();
    assert_eq!(a.mul(&b), Ok(Row::parse("24317568").unwrap()));
    assert_eq!(a.mul_unchecked(&b), Row::parse("24317568").unwrap());
    let err = a.mul(&Row::parse("4321").unwrap()).unwrap_err();
    assert_eq!(err.lhs_stage, Stage::new(8));
    assert_eq!(err.rhs_stage, Stage::new(4));
    let mut out = Row::rounds(Stage::new(3));
    a.mul_into_unchecked(&b, &mut out);
    assert_eq!(out, Row::parse("24317568").unwrap());
}

#[test]
fn inverses() {
    assert_eq!(Row::parse("135246").unwrap().inv(), Row::parse("142536").unwrap());
    assert_eq!(Row::backrounds(Stage::new(8)).inv(), Row::backrounds(Stage::new(8)));
    assert_eq!(Row::parse("1342").unwrap().inv(), Row::parse("1423").unwrap());
    let x = Row::parse("15738264").unwrap();
    assert!(x.mul(&x.inv()).unwrap().is_rounds());
    assert!(x.inv().mul(&x).unwrap().is_rounds());
    let mut out = Row::rounds(Stage::new(2));
    x.inv_into(&mut out);
    assert_eq!(out, x.inv());
}

#[test]
fn closure_of_part_head() {
    assert_eq!(
        Row::parse("18234567").unwrap().closure(),
        vec![
            Row::parse("18234567").unwrap(),
            Row::parse("17823456").unwrap(),
            Row::parse("16782345").unwrap(),
            Row::parse("15678234").unwrap(),
            Row::parse("14567823").unwrap(),
            Row::parse("13456782").unwrap(),
            Row::parse("12345678").unwrap(),
        ]
    );
    assert_eq!(Row::rounds(Stage::new(6)).closure(), vec![Row::rounds(Stage::new(6))]);
}

#[test]
fn rounds_checks_and_places() {
    assert!(Row::rounds(Stage::new(12)).is_rounds());
    assert!(!Row::parse("18423756").unwrap().is_rounds());
    let tittums = Row::parse("15263748").unwrap();
    assert_eq!(tittums.slice()[3], Bell::from_name('6').unwrap());
    assert_eq!(tittums.place_of(Bell::from_name('6').unwrap()), Some(3));
    assert_eq!(tittums.place_of(Bell::from_name('9').unwrap()), None);
    let mut r = Row::rounds(Stage::new(4));
    r.swap(0, 3);
    assert_eq!(r.to_string(), "4231");
    let mut r = Row::parse("321").unwrap();
    r.extend_to_stage(Stage::new(6));
    assert_eq!(r.to_string(), "321456");
}

#[test]
fn push_names_and_hash() {
    let waterfall = Row::parse("6543217890").unwrap();
    let mut string = "Waterfall is: ".to_string();
    waterfall.push_to_string(&mut string);
    assert_eq!(string, "Waterfall is: 6543217890");
    // Read as base-3 with the first bell least significant: 2 + 1*3 + 0*9
    assert_eq!(Row::parse("321").unwrap().fast_hash(), 5);
    assert_eq!(Row::rounds(Stage::new(4)).fast_hash(), 0 + 1 * 4 + 2 * 16 + 3 * 64);
    assert_ne!(Row::parse("2134").unwrap().fast_hash(), Row::parse("1234").unwrap().fast_hash());
}

#[test]
fn bell_names() {
    assert_eq!(Bell::from_name('1').unwrap().name(), "1");
    assert_eq!(Bell::from_name('0').unwrap().name(), "0");
    assert_eq!(Bell::from_name('T').unwrap().name(), "T");
    assert_eq!(Bell::from_name('e'), None);
    assert_eq!(Bell::from_name('\r'), None);
    assert_eq!(Bell::from_name('🦀'), None);
    assert_eq!(Bell::from_index(11).name(), "T");
    assert_eq!(Bell::from_number(12).unwrap().name(), "T");
    assert_eq!(Bell::from_number(0), None);
    assert_eq!(Bell::from_number(11).unwrap().to_char(), Some('E'));
    assert_eq!(Bell::from_number(100).unwrap().to_char(), None);
    assert_eq!(Bell::from_number(100).unwrap().name(), "<100>");
    assert_eq!(Bell::from_number(16).unwrap().name(), "D");
    assert_eq!(Bell::from_name('8').unwrap().index(), 7);
    assert_eq!(Bell::from_name('0').unwrap().number(), 10);
    assert_eq!(Bell::treble().index(), 0);
    assert_eq!(Bell::from_name('1'), Some(Bell::treble()));
}

#[test]
fn bell_iter_reads_bytes() {
    let mut it = BellIter::new(0x0003_0102, 3);
    let mut read = Vec::new();
    while let Some(b) = it.next() {
        read.push(b.index());
    }
    assert_eq!(read, vec![2, 1, 3]);
    assert_eq!(it.next(), None);
}

#[test]
fn incompatible_stages_messages() {
    let e = IncompatibleStages::test_err(Stage::major(), Stage::new(6)).unwrap_err();
    assert_eq!(e.to_string(), "Incompatible stages: Major (lhs), Minor (rhs)");
    assert_eq!(
        PermIncompatibleStages::new(4, Stage::major()).to_string(),
        "A Perm of stage 8 can't permute a slice of len 4"
    );
}

#[test]
fn invalid_row_err_messages() {
    assert_eq!(InvalidRowErr::DuplicateBell(Bell::from_index(2)).to_string(), "Bell 3 would appear twice.");
    assert_eq!(
        InvalidRowErr::BellOutOfStage(Bell::from_index(6), Stage::new(5)).to_string(),
        "Bell 7 is not within the stage 5"
    );
}

#[test]
fn stage_constructors() {
    assert_eq!(Stage::singles().as_usize(), 3);
    assert_eq!(Stage::major().as_usize(), 8);
    assert_eq!(Stage::maximus().to_string(), "Maximus");
    assert_eq!(Stage::sixteen().as_usize(), 16);
}
