use eon::{
    sum, sum_owned, Count, Cursor, Dimension, IntegersSummary, Item, Node, NodeStore, NullNodeStore,
    SeekBias, Summary, Tree, NODE_CAPACITY,
};

type Db = NullNodeStore<u8>;

fn tree_of(items: &[u8], db: &mut Db) -> Tree<u8> {
    let mut tree = Tree::new();
    tree.extend(items.to_vec().into_iter(), db).unwrap();
    tree
}

fn run(len: u8) -> Vec<u8> {
    (0..len).collect()
}

fn seek_index(tree: &Tree<u8>, pos: usize, bias: SeekBias, db: &mut Db) -> Option<u8> {
    let mut cursor = tree.cursor();
    cursor.seek(&Count(pos), bias, db).unwrap();
    cursor.item(db).unwrap().cloned()
}

#[test]
fn an_empty_tree_has_no_items() {
    let db = &mut Db::new();
    let tree = Tree::<u8>::new();
    assert_eq!(tree.items(db).unwrap(), Vec::<u8>::new());
    assert_eq!(tree.extent::<Count, _>(db).unwrap(), Count(0));

    let mut cursor = tree.cursor();
    cursor.seek(&Count(0), SeekBias::Left, db).unwrap();
    assert_eq!(cursor.item(db).unwrap(), None);
    cursor.next(db).unwrap();
    assert_eq!(cursor.item(db).unwrap(), None);
    let slice = cursor.slice(&Count(3), SeekBias::Right, db).unwrap();
    assert_eq!(slice.items(db).unwrap(), Vec::<u8>::new());
}

#[test]
fn push_adds_one_item_until_the_leaf_splits() {
    let db = &mut Db::new();
    let mut tree = Tree::<u8>::new();
    for i in 0..(NODE_CAPACITY as u8 + 1) {
        tree.push(10 + i, db).unwrap();
        assert_eq!(tree.items(db).unwrap(), (10..11 + i).collect::<Vec<u8>>());
        assert_eq!(tree.extent::<Count, _>(db).unwrap(), Count(i as usize + 1));
    }
}

#[test]
fn extend_adds_runs_of_any_length() {
    let db = &mut Db::new();
    for first in 0..12u8 {
        for second in 0..60u8 {
            let mut tree = tree_of(&run(first), db);
            tree.extend(100..100 + second, db).unwrap();
            let expected: Vec<u8> = (0..first).chain(100..100 + second).collect();
            assert_eq!(tree.items(db).unwrap(), expected);
        }
    }
}

#[test]
fn trees_of_any_heights_can_be_joined() {
    let db = &mut Db::new();
    for first in [0u8, 1, 2, 4, 5, 9, 17, 40, 90] {
        for second in [0u8, 1, 2, 3, 4, 5, 8, 16, 33, 70, 100] {
            let mut tree = tree_of(&run(first), db);
            let other = tree_of(&(100..100 + second).collect::<Vec<u8>>(), db);
            tree.push_tree(other, db).unwrap();
            let expected: Vec<u8> = (0..first).chain(100..100 + second).collect();
            assert_eq!(tree.items(db).unwrap(), expected);
        }
    }
}

#[test]
fn extents_add_up_when_trees_are_joined() {
    let db = &mut Db::new();
    let mut tree = tree_of(&run(7), db);
    let other = tree_of(&run(30), db);
    let first = tree.extent::<Count, _>(db).unwrap();
    let second = other.extent::<Count, _>(db).unwrap();
    tree.push_tree(other, db).unwrap();
    assert_eq!(tree.extent::<Count, _>(db).unwrap(), first + &second);
    assert_eq!(tree.extent::<Count, _>(db).unwrap(), Count(37));
}

#[test]
fn a_clone_keeps_its_items_when_the_tree_changes() {
    let db = &mut Db::new();
    let mut tree = tree_of(&run(23), db);
    let copy = tree.clone();
    tree.extend(50..60, db).unwrap();
    assert_eq!(copy.items(db).unwrap(), run(23));
    assert_eq!(tree.items(db).unwrap(), (0..23).chain(50..60).collect::<Vec<u8>>());
}

#[test]
fn a_slice_does_not_change_the_tree() {
    let db = &mut Db::new();
    let tree = tree_of(&run(23), db);
    let mut cursor = tree.cursor();
    let mut slice = cursor.slice(&Count(11), SeekBias::Right, db).unwrap();
    slice.extend(50..60, db).unwrap();
    assert_eq!(slice.items(db).unwrap(), (0..11).chain(50..60).collect::<Vec<u8>>());
    assert_eq!(tree.items(db).unwrap(), run(23));
}

#[test]
fn seek_by_count_lands_at_the_index() {
    let db = &mut Db::new();
    let tree = tree_of(&run(37), db);
    for n in 0..37usize {
        assert_eq!(seek_index(&tree, n, SeekBias::Right, db), Some(n as u8));
    }
    for n in 1..38usize {
        assert_eq!(seek_index(&tree, n, SeekBias::Left, db), Some(n as u8 - 1));
    }
    assert_eq!(seek_index(&tree, 0, SeekBias::Left, db), Some(0));
    assert_eq!(seek_index(&tree, 37, SeekBias::Right, db), None);
    assert_eq!(seek_index(&tree, 38, SeekBias::Left, db), None);
    assert_eq!(seek_index(&tree, 50, SeekBias::Right, db), None);
}

#[test]
fn a_later_position_is_found_no_earlier() {
    let db = &mut Db::new();
    let tree = tree_of(&run(25), db);
    let mut last = 0u8;
    for n in 0..25usize {
        let left = seek_index(&tree, n, SeekBias::Left, db).unwrap();
        let right = seek_index(&tree, n, SeekBias::Right, db).unwrap();
        assert!(last <= left);
        assert!(left <= right);
        last = right;
    }
}

#[test]
fn the_extent_lies_behind_all_items() {
    let db = &mut Db::new();
    for len in 0..30u8 {
        let tree = tree_of(&run(len), db);
        let extent = tree.extent::<Count, _>(db).unwrap();
        assert_eq!(seek_index(&tree, extent.0, SeekBias::Right, db), None);
    }
}

#[test]
fn next_walks_along_all_items_and_stays_at_the_end() {
    let db = &mut Db::new();
    let tree = tree_of(&run(30), db);
    let mut cursor = Cursor::new(tree);
    cursor.seek(&Count(0), SeekBias::Right, db).unwrap();
    for i in 0..30u8 {
        assert_eq!(cursor.item(db).unwrap(), Some(&i));
        cursor.next(db).unwrap();
    }
    assert_eq!(cursor.item(db).unwrap(), None);
    cursor.next(db).unwrap();
    assert_eq!(cursor.item(db).unwrap(), None);
}

#[test]
fn a_cursor_that_walked_can_slice_on() {
    let db = &mut Db::new();
    let tree = tree_of(&run(30), db);
    for steps in 0..30u8 {
        let mut cursor = tree.cursor();
        cursor.seek(&Count(0), SeekBias::Right, db).unwrap();
        for _ in 0..steps {
            cursor.next(db).unwrap();
        }
        let slice = cursor.slice(&Count(28), SeekBias::Right, db).unwrap();
        let end = if steps > 28 { steps } else { 28 };
        assert_eq!(slice.items(db).unwrap(), (steps..end).collect::<Vec<u8>>());
        assert_eq!(cursor.item(db).unwrap(), Some(&end));
    }
}

#[test]
fn prev_item_is_the_item_in_front() {
    let db = &mut Db::new();
    let tree = tree_of(&run(30), db);
    for n in 0..30usize {
        let mut cursor = tree.cursor();
        cursor.seek(&Count(n), SeekBias::Right, db).unwrap();
        let expected = if n > 0 { Some(n as u8 - 1) } else { None };
        assert_eq!(cursor.prev_item(db).unwrap().cloned(), expected);
        assert_eq!(cursor.item(db).unwrap(), Some(&(n as u8)));
    }
}

#[test]
fn prev_item_after_next_is_the_item_that_was_left() {
    let db = &mut Db::new();
    let tree = tree_of(&run(30), db);
    for n in 0..29usize {
        let mut cursor = tree.cursor();
        cursor.seek(&Count(n), SeekBias::Right, db).unwrap();
        cursor.next(db).unwrap();
        assert_eq!(cursor.prev_item(db).unwrap(), Some(&(n as u8)));
    }
}

#[test]
fn prev_item_keeps_the_leaf_that_it_found() {
    let db = &mut Db::new();
    let tree = tree_of(&run(20), db);
    let mut cursor = tree.cursor();
    cursor.seek(&Count(4), SeekBias::Right, db).unwrap();
    assert_eq!(cursor.prev_item(db).unwrap(), Some(&3));
    cursor.seek(&Count(8), SeekBias::Right, db).unwrap();
    assert_eq!(cursor.prev_item(db).unwrap(), Some(&3));
    cursor.seek(&Count(9), SeekBias::Right, db).unwrap();
    assert_eq!(cursor.prev_item(db).unwrap(), Some(&8));
    cursor.seek(&Count(0), SeekBias::Right, db).unwrap();
    assert_eq!(cursor.prev_item(db).unwrap(), Some(&3));

    let mut fresh = tree.cursor();
    fresh.seek(&Count(0), SeekBias::Right, db).unwrap();
    assert_eq!(fresh.prev_item(db).unwrap(), None);
    fresh.seek(&Count(8), SeekBias::Right, db).unwrap();
    assert_eq!(fresh.prev_item(db).unwrap(), None);
}

#[test]
fn consecutive_slices_make_up_one() {
    let db = &mut Db::new();
    let tree = tree_of(&run(40), db);
    for first in 0..41u8 {
        for second in first..41u8 {
            let mut cursor = tree.cursor();
            let mut whole = cursor.slice(&Count(first as usize), SeekBias::Right, db).unwrap();
            assert_eq!(whole.items(db).unwrap(), (0..first).collect::<Vec<u8>>());
            let rest = cursor.slice(&Count(second as usize), SeekBias::Right, db).unwrap();
            assert_eq!(rest.items(db).unwrap(), (first..second).collect::<Vec<u8>>());
            whole.push_tree(rest, db).unwrap();
            let mut at_once = tree.cursor();
            let expected = at_once.slice(&Count(second as usize), SeekBias::Right, db).unwrap();
            assert_eq!(whole.items(db).unwrap(), expected.items(db).unwrap());
        }
    }
}

#[test]
fn a_slice_to_a_position_in_front_is_empty() {
    let db = &mut Db::new();
    let tree = tree_of(&run(40), db);
    let mut cursor = tree.cursor();
    cursor.seek(&Count(21), SeekBias::Right, db).unwrap();
    let slice = cursor.slice(&Count(5), SeekBias::Right, db).unwrap();
    assert_eq!(slice.items(db).unwrap(), Vec::<u8>::new());
    assert_eq!(cursor.item(db).unwrap(), Some(&21));
}

#[test]
fn a_bias_to_the_left_leaves_the_item_at_the_boundary() {
    let db = &mut Db::new();
    let tree = tree_of(&run(40), db);
    let mut cursor = tree.cursor();
    let slice = cursor.slice(&Count(17), SeekBias::Left, db).unwrap();
    assert_eq!(slice.items(db).unwrap(), run(16));
    assert_eq!(cursor.item(db).unwrap(), Some(&16));
}

#[test]
fn a_tree_that_is_cut_can_be_joined_again() {
    let db = &mut Db::new();
    let tree = tree_of(&run(33), db);
    let extent = tree.extent::<Count, _>(db).unwrap();
    for n in 0..34usize {
        let mut cursor = tree.cursor();
        let mut front = cursor.slice(&Count(n), SeekBias::Right, db).unwrap();
        let back = cursor.slice(&extent, SeekBias::Right, db).unwrap();
        front.push_tree(back, db).unwrap();
        assert_eq!(front.items(db).unwrap(), run(33));
    }
}

#[test]
fn a_splice_replaces_the_items_in_between() {
    let db = &mut Db::new();
    let tree = tree_of(&run(21), db);
    let extent = tree.extent::<Count, _>(db).unwrap();
    for start in 0..22u8 {
        for end in start..22u8 {
            let mut cursor = tree.cursor();
            let mut spliced = cursor.slice(&Count(start as usize), SeekBias::Right, db).unwrap();
            spliced.extend(200..203, db).unwrap();
            cursor.seek(&Count(end as usize), SeekBias::Right, db).unwrap();
            let tail = cursor.slice(&extent, SeekBias::Right, db).unwrap();
            spliced.push_tree(tail, db).unwrap();
            let expected: Vec<u8> = (0..start).chain(200..203).chain(end..21).collect();
            assert_eq!(spliced.items(db).unwrap(), expected);
        }
    }
}

#[test]
fn summaries_are_added_up() {
    let summaries = vec![7u8.summarize(), 250u8.summarize(), 3u8.summarize()];
    let borrowed: IntegersSummary = sum(summaries.iter());
    assert_eq!((borrowed.count, borrowed.sum), (3, 260));
    let owned: IntegersSummary = sum_owned(summaries.into_iter());
    assert_eq!((owned.count, owned.sum), (3, 260));

    let none: IntegersSummary = sum_owned(Vec::new().into_iter());
    assert_eq!((none.count, none.sum), (0, 0));
    let nothing = Vec::<IntegersSummary>::new();
    let none: IntegersSummary = sum(nothing.iter());
    assert_eq!((none.count, none.sum), (0, 0));
}

#[test]
fn bytes_are_counted_and_summed() {
    let mut summary = IntegersSummary::default();
    summary.add_assign(&9u8.summarize());
    summary.add_assign(&255u8.summarize());
    assert_eq!((summary.count, summary.sum), (2, 264));
    assert_eq!(Count::from_summary(&summary), Count(2));
    assert_eq!(<Count as Dimension>::default(), Count(0));
    assert_eq!(Count(3) + &Count(4), Count(7));
    assert!(Count(3) < Count(4));
    assert_ne!(Count(3), Count(4));
}

#[test]
fn a_store_that_holds_nothing_cannot_be_read() {
    let db = &mut Db::new();
    assert!(db.get(0).is_err());
    let tree = Tree::<u8>::NonResident(0);
    assert!(tree.extent::<Count, _>(db).is_err());
    assert!(tree.items(db).is_err());
}

fn height(tree: &Tree<u8>) -> u8 {
    match tree {
        Tree::Resident(node) => match **node {
            Node::Internal { height, .. } => height,
            Node::Leaf { .. } => 0,
        },
        Tree::NonResident(_) => unreachable!(),
    }
}

#[test]
fn a_tree_is_as_high_as_its_items_make_it() {
    let db = &mut Db::new();
    for (len, expected) in [
        (0u8, 0u8),
        (4, 0),
        (5, 1),
        (8, 1),
        (16, 1),
        (17, 2),
        (20, 2),
        (52, 2),
        (56, 3),
    ] {
        assert_eq!(height(&tree_of(&run(len), db)), expected);
    }
}

#[test]
fn steps_from_the_start_reach_the_index() {
    let db = &mut Db::new();
    let tree = tree_of(&run(18), db);
    for steps in 0..25usize {
        let mut cursor = tree.cursor();
        cursor.seek(&Count(0), SeekBias::Right, db).unwrap();
        for _ in 0..steps {
            cursor.next(db).unwrap();
        }
        let expected = if steps < 18 { Some(steps as u8) } else { None };
        assert_eq!(cursor.item(db).unwrap().cloned(), expected);
    }
}
