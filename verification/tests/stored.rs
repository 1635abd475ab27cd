use eon::{Count, Failures, Node, NodeId, NodeStore, Nodes, NullNodeStore, Reads, SeekBias, Tree};

#[derive(Debug, PartialEq)]
struct Unreadable(NodeId);

/// A store in memory that fails once it has been read `reads_left` times, and that knows
/// which nodes it was asked for.
struct Shelf {
    nodes: Vec<Node<u8>>,
    reads_left: usize,
    asked: Vec<NodeId>,
}

impl Shelf {
    fn new() -> Self {
        Shelf { nodes: Vec::new(), reads_left: usize::MAX, asked: Vec::new() }
    }

    /// The nodes that were asked for since this was last called.
    fn asked(&mut self) -> Vec<NodeId> {
        std::mem::take(&mut self.asked)
    }

    /// Puts the root of a tree that is in memory on the shelf.
    fn store(&mut self, tree: Tree<u8>) -> Tree<u8> {
        match tree {
            Tree::Resident(node) => {
                self.nodes.push((*node).clone());
                Tree::NonResident(self.nodes.len() - 1)
            }
            Tree::NonResident(id) => Tree::NonResident(id),
        }
    }
}

impl NodeStore<u8> for Shelf {
    type ReadError = Unreadable;

    fn nodes(&self) -> Nodes<u8> {
        unreachable!()
    }

    fn failures(&self) -> Failures<Unreadable> {
        unreachable!()
    }

    fn reads(&self) -> Reads {
        unreachable!()
    }

    fn get(&mut self, id: NodeId) -> Result<&Node<u8>, Unreadable> {
        self.asked.push(id);
        if self.reads_left == 0 || id >= self.nodes.len() {
            return Err(Unreadable(id));
        }
        self.reads_left -= 1;
        Ok(&self.nodes[id])
    }
}

fn leaf(items: std::ops::Range<u8>, db: &mut Shelf) -> Tree<u8> {
    let mut tree = Tree::new();
    tree.extend(items, db).unwrap();
    db.store(tree)
}

/// A tree of the numbers below 24, most of its nodes on the shelf.
fn shelved(db: &mut Shelf) -> Tree<u8> {
    let mut tree = Tree::new();
    tree.extend(0..8, db).unwrap();
    for start in [8u8, 12, 16, 20] {
        let next = leaf(start..start + 4, db);
        tree.push_tree(next, db).unwrap();
    }
    db.store(tree)
}

#[test]
fn a_stored_tree_has_the_same_items() {
    let db = &mut Shelf::new();
    let tree = shelved(db);
    assert_eq!(tree.items(db).unwrap(), (0..24).collect::<Vec<u8>>());
    assert_eq!(tree.extent::<Count, _>(db).unwrap(), Count(24));
}

#[test]
fn a_stored_tree_can_be_searched_and_cut() {
    let db = &mut Shelf::new();
    let tree = shelved(db);
    for n in 0..24usize {
        let mut cursor = tree.cursor();
        cursor.seek(&Count(n), SeekBias::Right, db).unwrap();
        assert_eq!(cursor.item(db).unwrap(), Some(&(n as u8)));
        let expected = if n > 0 { Some(n as u8 - 1) } else { None };
        assert_eq!(cursor.prev_item(db).unwrap().cloned(), expected);
        let rest = cursor.slice(&Count(24), SeekBias::Right, db).unwrap();
        assert_eq!(rest.items(db).unwrap(), (n as u8..24).collect::<Vec<u8>>());
    }
}

#[test]
fn a_stored_tree_can_grow_without_changing_the_store() {
    let db = &mut Shelf::new();
    let stored = shelved(db);
    let mut tree = stored.clone();
    tree.extend(100..130, db).unwrap();
    assert_eq!(tree.items(db).unwrap(), (0..24).chain(100..130).collect::<Vec<u8>>());
    assert_eq!(stored.items(db).unwrap(), (0..24).collect::<Vec<u8>>());

    let mut single = leaf(7..9, db);
    single.push(9, db).unwrap();
    assert_eq!(single.items(db).unwrap(), vec![7, 8, 9]);
}

#[test]
fn the_error_of_a_failed_read_is_returned() {
    let db = &mut Shelf::new();
    let mut tree = shelved(db);
    let root = db.nodes.len() - 1;
    db.reads_left = 0;
    assert_eq!(tree.items(db), Err(Unreadable(root)));
    assert_eq!(tree.extent::<Count, _>(db), Err(Unreadable(root)));
    assert_eq!(tree.extend(50..60, db), Err(Unreadable(root)));
    assert_eq!(tree.push_tree(Tree::new(), db), Err(Unreadable(root)));
    let mut cursor = tree.cursor();
    assert_eq!(cursor.seek(&Count(3), SeekBias::Right, db), Err(Unreadable(root)));
    assert_eq!(Tree::NonResident(99).push(1, db), Err(Unreadable(99)));
}

#[test]
fn a_failed_read_loses_no_items() {
    for reads in 0..40usize {
        let db = &mut Shelf::new();
        let mut tree = shelved(db);
        let other = shelved(db);
        db.reads_left = reads;
        let result = tree.push_tree(other, db);
        db.reads_left = usize::MAX;
        let all: Vec<u8> = (0..24).chain(0..24).collect();
        let items = tree.items(db).unwrap();
        assert!(items.len() >= 24);
        assert_eq!(items, all[..items.len()].to_vec());
        if result.is_ok() {
            assert_eq!(items, all);
        }
    }
}

#[test]
fn a_slice_holds_the_first_items_if_a_read_fails() {
    for reads in 0..20usize {
        let db = &mut Shelf::new();
        let tree = shelved(db);
        let mut cursor = tree.cursor();
        db.reads_left = reads;
        let slice = cursor.slice(&Count(22), SeekBias::Right, db).unwrap();
        db.reads_left = usize::MAX;
        let items = slice.items(db).unwrap();
        assert!(items.len() <= 22);
        assert_eq!(items, (0..items.len() as u8).collect::<Vec<u8>>());
    }
}

#[test]
fn a_cursor_can_seek_again_after_a_failed_read() {
    let db = &mut Shelf::new();
    let tree = shelved(db);
    let mut cursor = tree.cursor();
    db.reads_left = 1;
    assert!(cursor.seek(&Count(13), SeekBias::Right, db).is_err());
    db.reads_left = usize::MAX;
    cursor.seek(&Count(13), SeekBias::Right, db).unwrap();
    assert_eq!(cursor.item(db).unwrap(), Some(&13));
    for _ in 0..2 {
        cursor.next(db).unwrap();
    }
    db.reads_left = 1;
    assert!(cursor.next(db).is_err());
    db.reads_left = usize::MAX;
    cursor.seek(&Count(20), SeekBias::Left, db).unwrap();
    assert_eq!(cursor.item(db).unwrap(), Some(&19));
}

#[test]
fn a_tree_in_memory_needs_no_store() {
    let db = &mut NullNodeStore::new();
    let mut tree = Tree::<u8>::new();
    tree.extend(0..30, db).unwrap();
    let shelf = &mut Shelf::new();
    assert_eq!(tree.items(shelf).unwrap(), tree.items(db).unwrap());
    shelf.reads_left = 0;
    tree.extend(30..50, shelf).unwrap();
    assert_eq!(tree.items(db).unwrap(), (0..50).collect::<Vec<u8>>());
}

/// A tree of the numbers below 16, with the leaf of those from 8 on out of reach of any
/// other store.
fn with_a_gap(db: &mut Shelf) -> Tree<u8> {
    let mut tree = Tree::new();
    tree.extend(0..8, db).unwrap();
    let gap = leaf(8..12, db);
    tree.push_tree(gap, db).unwrap();
    let mut end = Tree::new();
    end.extend(12..16, db).unwrap();
    tree.push_tree(end, db).unwrap();
    tree
}

#[test]
fn a_seek_passes_over_what_cannot_be_read() {
    let tree = with_a_gap(&mut Shelf::new());
    let db = &mut NullNodeStore::new();
    assert_eq!(tree.extent::<Count, _>(db).unwrap(), Count(16));
    let mut cursor = tree.cursor();
    cursor.seek(&Count(13), SeekBias::Right, db).unwrap();
    assert_eq!(cursor.item(db).unwrap(), Some(&13));
    assert!(cursor.seek(&Count(9), SeekBias::Right, db).is_err());
    cursor.seek(&Count(7), SeekBias::Right, db).unwrap();
    assert!(cursor.next(db).is_err());
    assert!(tree.items(db).is_err());
}

#[test]
fn a_slice_into_what_cannot_be_read_is_empty() {
    let tree = with_a_gap(&mut Shelf::new());
    let db = &mut NullNodeStore::new();
    let mut cursor = tree.cursor();
    let slice = cursor.slice(&Count(9), SeekBias::Right, db).unwrap();
    assert_eq!(slice.items(db).unwrap(), Vec::<u8>::new());
    let mut cursor = tree.cursor();
    let slice = cursor.slice(&Count(14), SeekBias::Right, db).unwrap();
    assert_eq!(slice.items(db).unwrap(), (0..8).collect::<Vec<u8>>());
}

#[test]
fn a_tree_grows_behind_what_cannot_be_read() {
    let shelf = &mut Shelf::new();
    let mut tree = with_a_gap(shelf);
    tree.extend(16..40, &mut NullNodeStore::new()).unwrap();
    assert_eq!(tree.items(shelf).unwrap(), (0..40).collect::<Vec<u8>>());
}

#[test]
fn an_unreadable_tree_is_not_joined() {
    let db = &mut NullNodeStore::new();
    let mut tree = Tree::<u8>::new();
    tree.extend(vec![1, 2].into_iter(), db).unwrap();
    assert!(tree.push_tree(Tree::NonResident(3), db).is_err());
    assert_eq!(tree.items(db).unwrap(), vec![1, 2]);
    assert_eq!(tree.extent::<Count, _>(db).unwrap(), Count(2));
}

#[test]
fn the_children_in_front_of_an_unreadable_one_are_joined() {
    let other = with_a_gap(&mut Shelf::new());
    let db = &mut NullNodeStore::new();
    let mut tree = Tree::<u8>::new();
    tree.extend(vec![101, 102].into_iter(), db).unwrap();
    assert!(tree.push_tree(other, db).is_err());
    assert_eq!(
        tree.items(db).unwrap(),
        vec![101, 102, 0, 1, 2, 3, 4, 5, 6, 7]
    );
}

#[test]
fn an_unreadable_tree_can_be_asked() {
    let db = &mut NullNodeStore::new();
    let mut tree = Tree::<u8>::NonResident(7);
    assert!(tree.items(db).is_err());
    assert!(tree.extent::<Count, _>(db).is_err());
    assert!(tree.push(1, db).is_err());
    assert!(tree.extend(0..3, db).is_err());
    tree.extend(0..0, db).unwrap();

    let mut cursor = tree.cursor();
    let slice = cursor.slice(&Count(1), SeekBias::Right, db).unwrap();
    assert_eq!(slice.items(db).unwrap(), Vec::<u8>::new());
    assert_eq!(cursor.item(db).unwrap(), None);
    cursor.next(db).unwrap();
    assert!(cursor.seek(&Count(1), SeekBias::Right, db).is_err());
    assert_eq!(cursor.item(db).unwrap(), None);
}

#[test]
fn nothing_is_read_behind_the_last_item() {
    let db = &mut Shelf::new();
    let tree = shelved(db);
    let mut cursor = tree.cursor();
    cursor.seek(&Count(24), SeekBias::Right, db).unwrap();
    db.reads_left = 0;
    cursor.next(db).unwrap();
    assert_eq!(cursor.item(db).unwrap(), None);
    let slice = cursor.slice(&Count(3), SeekBias::Left, db).unwrap();
    assert_eq!(slice.items(db).unwrap(), Vec::<u8>::new());
    assert_eq!(cursor.item(db).unwrap(), None);
}

#[test]
fn an_extent_takes_one_read() {
    let db = &mut Shelf::new();
    let tree = shelved(db);
    db.asked();
    assert_eq!(tree.extent::<Count, _>(db).unwrap(), Count(24));
    assert_eq!(db.asked(), vec![4]);
    assert_eq!(Tree::<u8>::NonResident(9).extent::<Count, _>(db), Err(Unreadable(9)));
    assert_eq!(db.asked(), vec![9]);
}

#[test]
fn a_seek_reads_the_nodes_on_the_way() {
    let db = &mut Shelf::new();
    let tree = shelved(db);
    let mut cursor = tree.cursor();
    db.asked();
    cursor.seek(&Count(12), SeekBias::Right, db).unwrap();
    assert_eq!(db.asked(), vec![4, 1]);
    assert_eq!(cursor.item(db).unwrap(), Some(&12));
    assert_eq!(db.asked(), vec![1]);
    assert_eq!(cursor.prev_item(db).unwrap(), Some(&11));
    assert_eq!(db.asked(), vec![4, 0, 0, 0]);
    assert_eq!(cursor.prev_item(db).unwrap(), Some(&11));
    assert_eq!(db.asked(), vec![0, 0]);
    for _ in 0..3 {
        cursor.next(db).unwrap();
        assert_eq!(db.asked(), vec![1]);
    }
    assert_eq!(cursor.prev_item(db).unwrap(), Some(&14));
    assert_eq!(db.asked(), vec![1]);
    cursor.next(db).unwrap();
    assert_eq!(db.asked(), vec![1, 2]);
    assert_eq!(cursor.item(db).unwrap(), Some(&16));
    cursor.seek(&Count(24), SeekBias::Right, db).unwrap();
    db.asked.clear();
    cursor.seek(&Count(2), SeekBias::Right, db).unwrap();
    assert_eq!(db.asked(), vec![4]);
}

#[test]
fn an_item_that_is_added_to_a_stored_leaf_takes_three_reads() {
    let db = &mut Shelf::new();
    let mut tree = leaf(7..9, db);
    db.asked();
    tree.push(9, db).unwrap();
    assert_eq!(db.asked(), vec![0, 0, 0]);
    tree.push(10, db).unwrap();
    assert_eq!(db.asked(), Vec::<NodeId>::new());
    assert_eq!(tree.items(db).unwrap(), vec![7, 8, 9, 10]);
}

#[test]
fn an_item_is_not_added_to_a_leaf_that_cannot_be_read() {
    for reads in 0..3usize {
        let db = &mut Shelf::new();
        let mut tree = leaf(7..9, db);
        db.reads_left = reads;
        assert_eq!(tree.push(9, db), Err(Unreadable(0)));
        assert!(matches!(tree, Tree::NonResident(0)));
    }
}

#[test]
fn the_leaf_of_an_empty_tree_is_read_twice_to_list_it() {
    let db = &mut Shelf::new();
    let tree = db.store(Tree::new());
    assert_eq!(tree.items(db).unwrap(), Vec::<u8>::new());
    assert_eq!(db.asked(), vec![0, 0]);
}

#[test]
fn items_are_added_all_or_not_at_all() {
    for reads in 0..4usize {
        let db = &mut Shelf::new();
        let mut tree = shelved(db);
        db.reads_left = reads;
        let result = tree.extend(100..111, db);
        db.reads_left = usize::MAX;
        let mut expected: Vec<u8> = (0..24).collect();
        if reads < 2 {
            assert_eq!(result, Err(Unreadable(4)));
        } else {
            result.unwrap();
            expected.extend(100..111);
        }
        assert_eq!(tree.items(db).unwrap(), expected);
    }
}

#[test]
fn a_slice_holds_the_subtrees_in_front_of_the_unreadable_one() {
    for (reads, len, place) in [
        (0usize, 0u8, None),
        (2, 8, Some(22)),
        (3, 8, Some(22)),
        (4, 12, Some(22)),
        (5, 12, Some(22)),
        (6, 16, Some(22)),
        (7, 16, Some(22)),
        (8, 22, Some(22)),
    ] {
        let db = &mut Shelf::new();
        let tree = shelved(db);
        let mut cursor = tree.cursor();
        db.reads_left = reads;
        let slice = cursor.slice(&Count(22), SeekBias::Right, db).unwrap();
        assert!(matches!(slice, Tree::Resident(_)));
        db.reads_left = usize::MAX;
        assert_eq!(slice.items(db).unwrap(), (0..len).collect::<Vec<u8>>());
        assert_eq!(cursor.item(db).unwrap().copied(), place);
    }
}

#[test]
fn a_slice_is_empty_if_the_cursor_does_not_arrive() {
    let db = &mut Shelf::new();
    let tree = shelved(db);
    let mut cursor = tree.cursor();
    db.reads_left = 1;
    let slice = cursor.slice(&Count(22), SeekBias::Right, db).unwrap();
    db.reads_left = usize::MAX;
    assert_eq!(slice.items(db).unwrap(), Vec::<u8>::new());

    cursor.seek(&Count(14), SeekBias::Right, db).unwrap();
    db.reads_left = 0;
    let slice = cursor.slice(&Count(22), SeekBias::Right, db).unwrap();
    db.reads_left = usize::MAX;
    assert_eq!(slice.items(db).unwrap(), Vec::<u8>::new());
    assert_eq!(cursor.item(db).unwrap(), Some(&14));
}

#[test]
fn a_cursor_stays_if_its_leaf_cannot_be_read() {
    let db = &mut Shelf::new();
    let tree = shelved(db);
    let mut cursor = tree.cursor();
    cursor.seek(&Count(15), SeekBias::Right, db).unwrap();
    db.reads_left = 0;
    assert_eq!(cursor.next(db), Err(Unreadable(1)));
    db.reads_left = usize::MAX;
    assert_eq!(cursor.item(db).unwrap(), Some(&15));
    cursor.next(db).unwrap();
    assert_eq!(cursor.item(db).unwrap(), Some(&16));
}

#[test]
fn a_cursor_is_behind_everything_if_the_root_cannot_be_read() {
    let db = &mut Shelf::new();
    let tree = shelved(db);
    let mut cursor = tree.cursor();
    db.reads_left = 0;
    assert_eq!(cursor.seek(&Count(3), SeekBias::Right, db), Err(Unreadable(4)));
    assert_eq!(cursor.item(db).unwrap(), None);
    cursor.next(db).unwrap();
    assert_eq!(cursor.item(db).unwrap(), None);
    let slice = cursor.slice(&Count(9), SeekBias::Right, db).unwrap();
    assert_eq!(slice.items(db).unwrap(), Vec::<u8>::new());
}

/// A store that holds one leaf, hands it out `reads_left` times, and then gives each failed
/// read a number of its own.
struct Counter {
    node: Node<u8>,
    reads_left: usize,
    failed: usize,
}

impl NodeStore<u8> for Counter {
    type ReadError = usize;

    fn nodes(&self) -> Nodes<u8> {
        unreachable!()
    }

    fn failures(&self) -> Failures<usize> {
        unreachable!()
    }

    fn reads(&self) -> Reads {
        unreachable!()
    }

    fn get(&mut self, _id: NodeId) -> Result<&Node<u8>, usize> {
        if self.reads_left == 0 {
            self.failed += 1;
            return Err(self.failed);
        }
        self.reads_left -= 1;
        Ok(&self.node)
    }
}

#[test]
fn the_item_in_front_goes_by_the_second_read() {
    let shelf = &mut Shelf::new();
    let mut tree = Tree::new();
    let first = leaf(0..4, shelf);
    let node = shelf.nodes[0].clone();
    let db = &mut Counter { node, reads_left: usize::MAX, failed: 0 };
    tree.extend(0..1, db).unwrap();
    tree.push_tree(first, db).unwrap();
    let stored = tree.items(db).unwrap();
    assert_eq!(stored, vec![0, 0, 1, 2, 3]);

    let mut tree = Tree::new();
    tree.extend(10..18, db).unwrap();
    tree.push_tree(Tree::NonResident(0), db).unwrap();
    tree.extend(20..24, db).unwrap();
    let mut cursor = tree.cursor();
    cursor.seek(&Count(12), SeekBias::Right, db).unwrap();
    assert_eq!(cursor.item(db).unwrap(), Some(&20));
    db.reads_left = 1;
    assert_eq!(cursor.prev_item(db), Err(2));
    assert_eq!(db.failed, 2);
    db.reads_left = usize::MAX;
    assert_eq!(cursor.prev_item(db).unwrap(), Some(&3));
    db.reads_left = 0;
    assert_eq!(cursor.prev_item(db), Err(4));
    assert_eq!(db.failed, 4);
}

#[test]
fn a_stored_tree_can_be_spliced() {
    let db = &mut Shelf::new();
    let tree = shelved(db);
    for (start, end) in [(0usize, 0usize), (3, 17), (8, 8), (12, 24), (20, 5), (24, 24)] {
        let mut cursor = tree.cursor();
        let mut spliced = cursor.slice(&Count(start), SeekBias::Right, db).unwrap();
        spliced.extend(100..103, db).unwrap();
        cursor.seek(&Count(end), SeekBias::Right, db).unwrap();
        let tail = cursor.slice(&tree.extent::<Count, _>(db).unwrap(), SeekBias::Right, db);
        spliced.push_tree(tail.unwrap(), db).unwrap();
        let mut expected: Vec<u8> = (0..start as u8).collect();
        expected.extend(100..103);
        expected.extend(end as u8..24);
        assert_eq!(spliced.items(db).unwrap(), expected);
        assert_eq!(tree.items(db).unwrap(), (0..24).collect::<Vec<u8>>());
    }
}

#[test]
fn stored_slices_make_up_the_tree() {
    let db = &mut Shelf::new();
    let tree = shelved(db);
    let mut cursor = tree.cursor();
    let mut whole = Tree::new();
    for end in [1usize, 2, 9, 9, 16, 23, 24] {
        let slice = cursor.slice(&Count(end), SeekBias::Right, db).unwrap();
        whole.push_tree(slice, db).unwrap();
    }
    assert_eq!(whole.items(db).unwrap(), tree.items(db).unwrap());
}

#[test]
fn a_slice_stops_where_a_seek_does() {
    let db = &mut Shelf::new();
    let tree = shelved(db);
    for left in [true, false] {
        let bias = || if left { SeekBias::Left } else { SeekBias::Right };
        for n in 0..26usize {
            let (mut sought, mut sliced) = (tree.cursor(), tree.cursor());
            sought.seek(&Count(n), bias(), db).unwrap();
            let slice = sliced.slice(&Count(n), bias(), db).unwrap();
            let place = sought.item(db).unwrap().copied();
            assert_eq!(sliced.item(db).unwrap().copied(), place);
            let len = place.unwrap_or(24);
            assert_eq!(slice.items(db).unwrap(), (0..len).collect::<Vec<u8>>());
        }
    }
}
