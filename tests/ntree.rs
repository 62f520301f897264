use wfwalk::tree::{ArenaIndex, NTree};

fn bf_pairs<'a>(tree: &'a NTree<&'static str>, from: ArenaIndex) -> Vec<(ArenaIndex, &'static str)> {
    let mut out = Vec::new();
    let mut it = tree.bf_iter_from(from);
    while let Some((i, v)) = it.next() {
        out.push((i, *v));
    }
    out
}

fn make_a_big_tree() -> NTree<&'static str> {
    let mut tree = NTree::new("root");
    let child0 = tree.add_child(tree.root_index(), "child0").unwrap();
    let child1 = tree.add_child(tree.root_index(), "child1").unwrap();
    let child2 = tree.add_child(tree.root_index(), "child2").unwrap();

    let _child00 = tree.add_child(child0, "child00").unwrap();
    let child01 = tree.add_child(child0, "child01").unwrap();
    let _child02 = tree.add_child(child0, "child02").unwrap();
    let _child03 = tree.add_child(child0, "child03").unwrap();

    tree.add_child(child01, "child010").unwrap();
    tree.add_child(child01, "child011").unwrap();

    let _child10 = tree.add_child(child1, "child10").unwrap();
    let _child11 = tree.add_child(child1, "child11").unwrap();

    let _child20 = tree.add_child(child2, "child20").unwrap();
    let _child21 = tree.add_child(child2, "child21").unwrap();

    tree
}

#[test]
fn ntree_test_new_tree() {
    let tree = NTree::new("root");
    assert_eq!("root", *tree.value(tree.root_index()).unwrap());
    assert_eq!(1, tree.len());
}

#[test]
fn ntree_test_one_child() {
    let mut tree = NTree::new("root");
    let child1 = tree.add_child(tree.root_index(), "child").unwrap();

    assert_eq!("child", *tree.value(child1).unwrap());
    assert_eq!(2, tree.len());
}

#[test]
fn ntree_test_many_children() {
    let mut tree = NTree::new("root");
    let child1 = tree.add_child(tree.root_index(), "child1").unwrap();
    let child2 = tree.add_child(tree.root_index(), "child2").unwrap();
    let child3 = tree.add_child(tree.root_index(), "child3").unwrap();

    assert_eq!("child1", *tree.value(child1).unwrap());
    assert_eq!("child2", *tree.value(child2).unwrap());
    assert_eq!("child3", *tree.value(child3).unwrap());
    assert_eq!(4, tree.len());

    let children = tree.children(tree.root_index()).unwrap();
    assert_eq!(vec![child1, child2, child3], *children);
}

#[test]
fn ntree_test_deep_children() {
    let mut tree = NTree::new("root");
    let child0 = tree.add_child(tree.root_index(), "child0").unwrap();
    let child1 = tree.add_child(tree.root_index(), "child1").unwrap();
    let child2 = tree.add_child(tree.root_index(), "child2").unwrap();

    let child00 = tree.add_child(child0, "child00").unwrap();
    let child01 = tree.add_child(child0, "child01").unwrap();
    let child02 = tree.add_child(child0, "child02").unwrap();
    let child03 = tree.add_child(child0, "child03").unwrap();

    let child20 = tree.add_child(child2, "child20").unwrap();
    let child21 = tree.add_child(child2, "child21").unwrap();

    assert_eq!(
        vec![child0, child1, child2],
        *tree.children(tree.root_index()).unwrap()
    );
    assert_eq!(
        vec![child00, child01, child02, child03],
        *tree.children(child0).unwrap()
    );
    assert_eq!(Vec::<ArenaIndex>::new(), *tree.children(child1).unwrap());
    assert_eq!(vec![child20, child21], *tree.children(child2).unwrap());
}

#[test]
fn test_iter_from() {
    let tree = make_a_big_tree();
    let (child10, _) = bf_pairs(&tree, tree.root_index())
        .into_iter()
        .find(|(_, val)| *val == "child01")
        .unwrap();

    let values: Vec<&str> = bf_pairs(&tree, child10).into_iter().map(|(_, v)| v).collect();

    assert_eq!(vec!["child01", "child010", "child011"], values);
}

#[test]
fn ntree_test_simple_bf() {
    let mut tree = NTree::new("root");
    let child0 = tree.add_child(tree.root_index(), "child0").unwrap();
    let child1 = tree.add_child(tree.root_index(), "child1").unwrap();
    let child2 = tree.add_child(tree.root_index(), "child2").unwrap();

    let child3 = tree.add_child(child0, "child3").unwrap();

    let mut indices: Vec<ArenaIndex> = Vec::new();
    let mut it = tree.bf_iter();
    while let Some((i, _)) = it.next() {
        indices.push(i);
    }

    assert_eq!(
        vec![tree.root_index(), child0, child1, child2, child3],
        indices
    );
}

#[test]
fn test_simple_bf_with_indices_and_values() {
    let mut tree = NTree::new("root");
    let child0 = tree.add_child(tree.root_index(), "child0").unwrap();
    let child1 = tree.add_child(tree.root_index(), "child1").unwrap();
    let child2 = tree.add_child(tree.root_index(), "child2").unwrap();

    let child10 = tree.add_child(child1, "child10").unwrap();
    let child11 = tree.add_child(child1, "child11").unwrap();
    let child110 = tree.add_child(child11, "child110").unwrap();
    let child20 = tree.add_child(child2, "child20").unwrap();
    let child200 = tree.add_child(child20, "child200").unwrap();
    let child201 = tree.add_child(child20, "child201").unwrap();
    let child21 = tree.add_child(child2, "child21").unwrap();
    let child210 = tree.add_child(child21, "child210").unwrap();

    let values: Vec<(ArenaIndex, &str)> = bf_pairs(&tree, tree.root_index());
    assert_eq!(
        vec![
            (tree.root_index(), "root"),
            (child0, "child0"),
            (child1, "child1"),
            (child2, "child2"),
            (child10, "child10"),
            (child11, "child11"),
            (child20, "child20"),
            (child21, "child21"),
            (child110, "child110"),
            (child200, "child200"),
            (child201, "child201"),
            (child210, "child210"),
        ],
        values
    );
}

#[test]
fn ntree_test_deep_iter_with_values() {
    let tree = make_a_big_tree();

    let mut values: Vec<&str> = Vec::new();
    let mut it = tree.bf_values();
    while let Some(s) = it.next() {
        values.push(*s);
    }
    assert_eq!(
        vec![
            "root", "child0", "child1", "child2", "child00", "child01", "child02", "child03",
            "child10", "child11", "child20", "child21", "child010", "child011",
        ],
        values
    );
}

#[test]
fn ntree_add_child_to_missing_node_is_refused() {
    let mut tree = NTree::new("root");
    assert!(tree.add_child(ArenaIndex(7), "lost").is_err());
    assert_eq!(1, tree.len());
    assert!(tree.value(ArenaIndex(1)).is_err());
}

static DISPLAY_TEST_OUTPUT: &str = r#"root
   child0
   child1
      child10
      child11
         child110
   child2
      child20
         child200
         child201
      child21
         child210
"#;

#[test]
fn test_display() {
    let mut tree: NTree<String> = NTree::new("root".to_string());
    let _child0 = tree.add_child(tree.root_index(), "child0".to_string()).unwrap();
    let child1 = tree.add_child(tree.root_index(), "child1".to_string()).unwrap();
    let child2 = tree.add_child(tree.root_index(), "child2".to_string()).unwrap();

    let _child10 = tree.add_child(child1, "child10".to_string()).unwrap();
    let child11 = tree.add_child(child1, "child11".to_string()).unwrap();
    let _child110 = tree.add_child(child11, "child110".to_string()).unwrap();
    let child20 = tree.add_child(child2, "child20".to_string()).unwrap();
    let _child200 = tree.add_child(child20, "child200".to_string()).unwrap();
    let _child201 = tree.add_child(child20, "child201".to_string()).unwrap();
    let child21 = tree.add_child(child2, "child21".to_string()).unwrap();
    let _child210 = tree.add_child(child21, "child210".to_string()).unwrap();

    let str = tree.to_outline();
    println!("{}", str);

    assert_eq!(DISPLAY_TEST_OUTPUT, str);
}

#[test]
fn find_node_takes_the_first_match_breadth_first() {
    let mut tree = NTree::new("root");
    let a = tree.add_child(tree.root_index(), "a").unwrap();
    let b = tree.add_child(tree.root_index(), "x").unwrap();
    let deep = tree.add_child(a, "x").unwrap();
    assert_eq!(Some(b), tree.find_node(tree.root_index(), |(_, v)| *v == "x"));
    assert_eq!(Some(deep), tree.find_node(a, |(_, v)| *v == "x"));
    assert_eq!(None, tree.find_node(tree.root_index(), |(_, v)| *v == "nothing"));
}
