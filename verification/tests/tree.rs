use treelars::graphidx::tree::{find_root, ChildrenIndex, Tree};

#[test]
fn base_3() {
    let pi: Vec<usize> = vec![0, 0, 1];
    let n = pi.len();
    assert_eq!(n, 3);
    let cidx = ChildrenIndex::from_parent(&pi).unwrap();
    assert_eq!(cidx.idx().len(), n + 1);
    assert_eq!(cidx.child().len(), n);
}

#[test]
fn tree_test_root_gen5() {
    let pi: Vec<usize> = vec![0, 0, 1, 2, 3, 0, 7, 8, 3, 8];
    let maybe_root = find_root(&pi);
    assert!(maybe_root.is_some());
    assert_eq!(maybe_root.unwrap(), 0);
}

#[test]
fn tree_test_root_8_not_exist() {
    let pi: Vec<usize> = vec![1, 0, 1, 2, 3, 0, 7, 8, 3, 8];
    let maybe_root = find_root(&pi);
    assert!(maybe_root.is_none());
}

#[test]
fn tree_test_root_perm() {
    let pi: Vec<usize> = vec!
      // 0   1   2   3   4   5   6   7   8   9  10  11  12  13  14  15  16  17
        [6,  6,  6,  7,  7,  7,  8,  8, 17, 15, 15, 15, 16, 16, 16, 17, 17, 17];
    assert_eq!(find_root(&pi).unwrap(), 17);
}

#[test]
fn tree_children_idx_3() {
    let pi: Vec<usize> = vec![0, 0, 1];
    let r: usize = 0;
    let n = pi.len();
    assert_eq!(n, 3);
    assert_eq!(find_root(&pi).unwrap(), r);

    let cidx = ChildrenIndex::from_tree(&pi, r);
    assert_eq!(cidx.len(), 3);
    assert_eq!(cidx.idx().len(), n + 1);
    assert_eq!(cidx.child().len(), n);
    assert_eq!(cidx.root_node(), r);
    assert_eq!(cidx.idx(), &vec![1, 2, 3, 3]);
    assert_eq!(cidx.child(), &vec![0, 1, 2]);
    assert_eq!(cidx.index(0), vec![1].as_slice());
    assert_eq!(cidx.index(1), vec![2].as_slice());
    assert_eq!(cidx.index(2), Vec::<usize>::new().as_slice());

    let cidx2 = ChildrenIndex::from_parent(&pi).unwrap();
    assert_eq!(cidx, cidx2);
}

#[test]
fn children_children_idx_3() {
    let pi: Vec<usize> = vec![0, 0, 1];
    let r: usize = 0;
    let n = pi.len();
    assert_eq!(n, 3);
    assert_eq!(find_root(&pi).unwrap(), r);

    let cidx = ChildrenIndex::from_tree(&pi, r);
    assert_eq!(cidx.len(), 3);
    assert_eq!(cidx.idx().len(), n + 1);
    assert_eq!(cidx.child().len(), n);
    assert_eq!(cidx.root_node(), r);
    assert_eq!(cidx.idx(), &vec![1, 2, 3, 3]);
    assert_eq!(cidx.child(), &vec![0, 1, 2]);
    assert_eq!(cidx.index(0), vec![1].as_slice());
    assert_eq!(cidx.index(1), vec![2].as_slice());
    assert_eq!(cidx.index(2), Vec::<usize>::new().as_slice());
    assert_eq!(&cidx[0], vec![1].as_slice());
    assert_eq!(&cidx[1], vec![2].as_slice());
    assert_eq!(&cidx[2], Vec::<usize>::new().as_slice());

    let cidx2 = ChildrenIndex::from_parent(&pi).unwrap();
    assert_eq!(cidx, cidx2);
}

#[test]
fn children_gen5() {
    let n = 10;
    let r = 0;
    let cidx = ChildrenIndex::from_tree(&[0, 0, 1, 2, 3, 0, 7, 8, 3, 8], r);
    assert_eq!(cidx.len(), n);
    assert_eq!(cidx.root_node(), r);
    assert_eq!(cidx[0], [1, 5]);
    assert_eq!(cidx[1], [2]);
    assert_eq!(cidx[2], [3]);
    assert_eq!(cidx[3], [4, 8]);
    assert_eq!(cidx[7], [6]);
    assert_eq!(cidx[8], [7, 9]);
    for i in &[4, 5, 6, 9] {
        assert_eq!(cidx[*i], [0usize; 0]);
    }
}

#[test]
fn binary_3() {
    let pi = [0, 0, 0, 1, 1, 2, 2];
    assert_eq!(find_root(&pi), Some(0));
    let cidx = ChildrenIndex::from_parent(&pi).unwrap();
    for i in 0..3 {
        assert_eq!(cidx[i].len(), 2);
    }
    for i in 3..cidx.len() {
        assert_eq!(cidx[i].len(), 0);
    }
}

#[test]
fn children_gen5_perm() {
    let parent = [6, 6, 6, 7, 7, 7, 8, 8, 8];
    let r = 8;
    assert_eq!(find_root(&parent), Some(r));
    let cidx = ChildrenIndex::from_parent(&parent).unwrap();
    assert_eq!(cidx.root_node(), r);
    assert_eq!(cidx.idx(), &[1, 1, 1, 1, 1, 1, 1, 4, 7, 9]);
    assert_eq!(cidx.child(), &[8, 0, 1, 2, 3, 4, 5, 6, 7]);
}

#[test]
fn test_from_root() {
    let tree = Tree::from_parent(vec![1, 1, 0]).unwrap();
    assert_eq!(tree.root(), 1);
}

#[test]
fn root_test_root_gen5() {
    let pi: Vec<usize> = vec![0, 0, 1, 2, 3, 0, 7, 8, 3, 8];
    let maybe_root = find_root(&pi);
    assert!(maybe_root.is_some());
    assert_eq!(maybe_root.unwrap(), 0);
}

#[test]
fn root_test_root_8_not_exist() {
    let pi: Vec<usize> = vec![1, 0, 1, 2, 3, 0, 7, 8, 3, 8];
    let maybe_root = find_root(&pi);
    assert!(maybe_root.is_none());
}

#[test]
fn root_test_root_perm() {
    let pi: Vec<usize> = vec!
      // 0   1   2   3   4   5   6   7   8   9  10  11  12  13  14  15  16  17
        [6,  6,  6,  7,  7,  7,  8,  8, 17, 15, 15, 15, 16, 16, 16, 17, 17, 17];
    assert_eq!(find_root(&pi).unwrap(), 17);
}

#[test]
fn find_root_doc_examples() {
    assert_eq!(find_root(&[1, 1, 0]), Some(1));
    assert_eq!(find_root(&[1, 0, 0]), None);
    assert_eq!(find_root(&[]), None);
}

#[test]
fn children_index_doc_example() {
    let cidx = ChildrenIndex::from_parent(&[0, 0, 0, 2]).unwrap();
    assert_eq!(cidx.len(), 4, "we have four nodes in the tree");
    assert_eq!(cidx.root_node(), 0);
    assert_eq!(cidx[0], [1, 2]);
    assert_eq!(cidx[1], [0usize; 0]);
    assert_eq!(cidx[2], [3]);
}

#[test]
fn from_parent_without_root() {
    assert!(ChildrenIndex::from_parent(&[1, 0]).is_none());
    assert!(Tree::from_parent(vec![1, 0]).is_none());
}
