use eon::{Count, NullNodeStore, SeekBias, Tree};
use rand::{Rng, SeedableRng, StdRng};

#[test]
fn test_extend_and_push_tree() {
    let mut db = NullNodeStore::new();
    let db = &mut db;

    let mut tree1 = Tree::new();
    tree1.extend(0..20, db).unwrap();

    let mut tree2 = Tree::new();
    tree2.extend(50..100, db).unwrap();

    tree1.push_tree(tree2, db).unwrap();
    assert_eq!(
        tree1.items(db).unwrap(),
        (0..20).chain(50..100).collect::<Vec<u8>>()
    );
}

#[test]
fn test_random() {
    for seed in 0..100 {
        let mut rng = StdRng::from_seed(&[seed]);

        let mut db = NullNodeStore::new();
        let db = &mut db;
        let mut tree = Tree::<u8>::new();
        let count = rng.gen_range(0, 10);
        tree.extend(rng.gen_iter().take(count), db).unwrap();

        for _i in 0..10 {
            let splice_end = rng.gen_range(0, tree.extent::<Count, _>(db).unwrap().0 + 1);
            let splice_start = rng.gen_range(0, splice_end + 1);
            let count = rng.gen_range(0, 3);
            let tree_end = tree.extent::<Count, _>(db).unwrap();
            let new_items = rng.gen_iter().take(count).collect::<Vec<u8>>();

            let mut reference_items = tree.items(db).unwrap();
            reference_items.splice(splice_start..splice_end, new_items.clone());

            let mut cursor = tree.cursor();
            tree = cursor
                .slice(&Count(splice_start), SeekBias::Right, db)
                .unwrap();
            tree.extend(new_items.into_iter(), db).unwrap();
            cursor
                .seek(&Count(splice_end), SeekBias::Right, db)
                .unwrap();
            tree.push_tree(cursor.slice(&tree_end, SeekBias::Right, db).unwrap(), db)
                .unwrap();

            assert_eq!(tree.items(db).unwrap(), reference_items);
        }
    }
}
