use std::collections::HashMap;
use jigsaw::bellcore::row::Row;
use jigsaw::proj::derived_state::{RowLocation, RowOrigin};
use jigsaw::proj::falseness::{add_ranges, coalesce_false_row_groups, gen_false_row_groups, FalseRowRange};

fn rl(frag: usize, row: usize) -> RowLocation {
    RowLocation { frag, row }
}

fn ro(part: usize, frag: usize, row: usize) -> RowOrigin {
    RowOrigin { part, frag, row }
}

fn ranges_of(m: &HashMap<usize, Vec<FalseRowRange>>, f: usize) -> Vec<(usize, usize, usize)> {
    match m.get(&f) {
        Some(ranges) => ranges.iter().map(|r| (r.range.start, r.range.end, r.group)).collect(),
        None => Vec::new(),
    }
}

#[test]
fn false_rows_found_and_counted() {
    let a = Row::parse("12345").unwrap();
    let b = Row::parse("21345").unwrap();
    let c = Row::parse("13245").unwrap();
    let flattened = vec![
        (ro(0, 0, 0), &a),
        (ro(0, 0, 1), &b),
        (ro(0, 1, 0), &a),
        (ro(1, 0, 1), &c),
        (ro(1, 2, 4), &a),
    ];
    let (groups, num_false) = gen_false_row_groups(flattened);
    assert_eq!(num_false, 3);
    assert_eq!(groups, vec![vec![rl(0, 0), rl(1, 0), rl(2, 4)]]);
}

#[test]
fn true_rows_have_no_false_groups() {
    let a = Row::parse("1234").unwrap();
    let b = Row::parse("2143").unwrap();
    let c = Row::parse("2413").unwrap();
    let flattened = vec![(ro(0, 0, 0), &a), (ro(0, 0, 1), &b), (ro(0, 0, 2), &c)];
    let (groups, num_false) = gen_false_row_groups(flattened);
    assert_eq!(num_false, 0);
    assert!(groups.is_empty());
}

#[test]
fn equal_groups_are_listed_once() {
    // Rows `a` and `b` are both false in the same two locations (once in each part), so they give
    // the same group, which is only listed once; all four rows count as false.
    let a = Row::parse("123").unwrap();
    let b = Row::parse("213").unwrap();
    let flattened = vec![
        (ro(0, 0, 0), &a),
        (ro(1, 0, 0), &b),
        (ro(0, 0, 5), &b),
        (ro(1, 0, 5), &a),
    ];
    let (groups, num_false) = gen_false_row_groups(flattened);
    assert_eq!(num_false, 4);
    assert_eq!(groups, vec![vec![rl(0, 0), rl(0, 5)]]);
}

#[test]
fn adjacent_groups_coalesce() {
    let groups = vec![
        vec![rl(0, 2), rl(1, 6)],
        vec![rl(0, 1), rl(1, 5)],
        vec![rl(0, 3), rl(1, 7)],
        vec![rl(2, 10), rl(2, 20)],
    ];
    let (ranges, num_groups) = coalesce_false_row_groups(groups);
    assert_eq!(num_groups, 2);
    assert_eq!(ranges_of(&ranges, 0), vec![(1, 4, 0)]);
    assert_eq!(ranges_of(&ranges, 1), vec![(5, 8, 0)]);
    assert_eq!(ranges_of(&ranges, 2), vec![(10, 11, 1), (20, 21, 1)]);
    assert_eq!(ranges_of(&ranges, 3), vec![]);
}

#[test]
fn no_groups_coalesce_to_none() {
    let (ranges, num_groups) = coalesce_false_row_groups(Vec::new());
    assert!(ranges.is_empty());
    assert_eq!(num_groups, 0);
}

#[test]
fn ranges_run_in_either_direction() {
    let mut m: HashMap<usize, Vec<FalseRowRange>> = HashMap::new();
    add_ranges(&mut m, &[rl(0, 5), rl(3, 1)], &[rl(0, 2), rl(3, 4)], 7);
    add_ranges(&mut m, &[rl(0, 9)], &[rl(0, 9)], 8);
    assert_eq!(ranges_of(&m, 0), vec![(2, 6, 7), (9, 10, 8)]);
    assert_eq!(ranges_of(&m, 3), vec![(1, 5, 7)]);
}
