use argus::lsmt::LSMTree;

#[test]
fn test_lsm_tree() {
    let key: &Vec<u8> = &vec![1, 2, 3, 4];
    let value: &Vec<u8> = &vec![5, 5, 3, 8];
    let mut tree: LSMTree = LSMTree::new();

    assert!(tree.get(key).is_none());
    assert!(tree.set(key, value));
    assert!(tree.get(key).is_some());
    assert_eq!(tree.get(key).unwrap(), value);
    assert!(tree.del(key));
    assert!(tree.get(key).is_none());
}

#[test]
fn test_lsm_tree_64() {
    let mut tree: LSMTree = LSMTree::new();

    for index in 0..64 {
        let key: &Vec<u8> = &(0..10).map(|v| v + index).collect();
        let value: &Vec<u8> = &vec![5, 5, 3, index];

        assert!(tree.get(key).is_none());
        assert!(tree.set(key, value));
        assert!(tree.get(key).is_some());
        assert_eq!(tree.get(key).unwrap(), value);
    }

    for index in 0..64 {
        let key: &Vec<u8> = &(0..10).map(|v| v + index).collect();

        assert!(tree.get(key).is_some());
        assert!(tree.del(key));
        assert!(tree.get(key).is_none());
    }

    for index in 0..64 {
        let key: &Vec<u8> = &(0..10).map(|v| v + index).collect();

        assert!(tree.get(key).is_none());
    }
}

#[test]
fn open_is_not_implemented() {
    assert_eq!(LSMTree::open("anything").err().unwrap(), "not implemented");
}

#[test]
fn del_of_absent_key_succeeds_and_set_brings_it_back() {
    let mut tree: LSMTree = LSMTree::new();
    let key: Vec<u8> = vec![1];
    assert!(tree.del(&key));
    assert!(tree.get(&key).is_none());
    assert!(tree.set(&key, &vec![3]));
    assert_eq!(tree.get(&key).unwrap(), &vec![3]);
}
