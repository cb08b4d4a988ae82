use jigsaw::bellcore::stage::Stage;
use jigsaw::projcore::block::Block;
use jigsaw::projcore::perm::Perm;
use jigsaw::projcore::row::Row;

#[test]
fn identity_perm_changes_nothing() {
    let id = Perm::id(Stage::new(4));
    assert_eq!(id.permute(&["a", "b", "c", "d"]).unwrap(), vec!["a", "b", "c", "d"]);
    let p = Perm::from_vec(vec![2, 0, 3, 1]);
    assert_eq!(id.mul(&p).unwrap(), p);
    assert_eq!(p.mul(&id).unwrap(), p);
}

#[test]
fn perm_iter_yields_one_item_per_perm() {
    let block = Block::from_perms(vec![
        Perm::from_vec(vec![0, 1, 2]),
        Perm::from_vec(vec![1, 0, 2]),
        Perm::from_vec(vec![1, 2, 0]),
    ])
    .unwrap();
    let mut it = block.perm_iter(&['x', 'y', 'z']).unwrap();
    assert_eq!(it.next(), Some(vec!['x', 'y', 'z']));
    assert_eq!(it.next(), Some(vec!['x', 'y', 'z']));
    assert_eq!(it.next(), Some(vec!['y', 'x', 'z']));
    assert_eq!(it.next(), None);
}

#[test]
fn row_string_round_trip() {
    let r = Row::parse("15263748").unwrap();
    assert_eq!(Row::parse(&r.to_string()).unwrap(), r);
}
