use miner::simpletree::{Parenting, TreeNode};

#[derive(PartialEq, Default, Debug)]
struct Data {
    val: u32,
    parent_id: [u8; 1],
}

impl Data {
    fn new(val: u32, parent_id: [u8; 1]) -> Self {
        Data { val, parent_id }
    }
}

impl Parenting for Data {
    fn is_parent(&self, parent_id: &[u8]) -> bool {
        self.val as u8 == parent_id[0]
    }

    fn parent_hash(&self) -> &[u8] {
        &self.parent_id
    }

    fn hash(&self) -> Vec<u8> {
        vec![self.val as u8]
    }

    fn nonce(&self) -> u64 {
        self.val as u64
    }
}

#[test]
fn test_tree_operations() {
    let mut root = TreeNode::new(Data::new(42, [0]));
    root.insert(Data::new(2, [42]));
    root.insert(Data::new(3, [42]));
    root.children_mut()[0].insert(Data::new(4, [2]));
    root.children_mut()[0].insert(Data::new(5, [2]));
    root.children_mut()[1].insert(Data::new(6, [3]));

    assert_eq!(root.depth(), 3);

    assert_eq!(
        root.look_for_parent(&[3]).unwrap().value(),
        &Data::new(3, [42])
    );

    root.remove(&Data::new(2, [42]));
    assert_eq!(root.children().len(), 1);
    assert_eq!(root.children()[0].value(), &Data::new(3, [42]));
}

#[test]
fn insert_under_goes_to_first_match_in_preorder() {
    let mut root = TreeNode::new(Data::new(1, [0]));
    root.insert(Data::new(2, [1]));
    root.insert(Data::new(3, [1]));
    assert_eq!(root.insert_under(&[3], Data::new(7, [3])), None);
    assert_eq!(root.children()[1].children().len(), 1);
    assert_eq!(root.children()[1].children()[0].value(), &Data::new(7, [3]));
    let back = root.insert_under(&[9], Data::new(8, [9]));
    assert_eq!(back, Some(Data::new(8, [9])));
    assert_eq!(root.depth(), 3);
}

#[derive(Clone, PartialEq, Default, Debug)]
struct Item(u8, u8);

impl Parenting for Item {
    fn is_parent(&self, parent_id: &[u8]) -> bool {
        parent_id == [self.0]
    }
    fn parent_hash(&self) -> &[u8] {
        std::slice::from_ref(&self.1)
    }
    fn hash(&self) -> Vec<u8> {
        vec![self.0]
    }
    fn nonce(&self) -> u64 {
        self.0 as u64
    }
}

#[test]
fn find_and_insert_appends_a_copy() {
    let mut root = TreeNode::new(Item(1, 0));
    let mut unused = 0u8;
    assert!(root.find_and_insert(&Item(2, 1), &mut unused));
    assert!(root.find_and_insert(&Item(3, 2), &mut unused));
    assert!(!root.find_and_insert(&Item(4, 9), &mut unused));
    assert_eq!(root.children().len(), 1);
    assert_eq!(root.children()[0].children()[0].value(), &Item(3, 2));
    assert_eq!(root.depth(), 3);
}

#[test]
fn look_for_parent_allows_changing_the_node() {
    let mut root = TreeNode::new(Data::new(1, [0]));
    root.insert(Data::new(2, [1]));
    root.look_for_parent(&[2]).unwrap().insert(Data::new(5, [2]));
    assert_eq!(root.children()[0].children()[0].value(), &Data::new(5, [2]));
    assert!(root.look_for_parent(&[9]).is_none());
    assert_eq!(root.depth(), 3);
}

#[test]
fn remove_drops_matching_children_at_every_level() {
    let mut root = TreeNode::new(Data::new(1, [0]));
    root.insert(Data::new(2, [1]));
    root.insert(Data::new(3, [1]));
    root.children_mut()[1].insert(Data::new(2, [1]));
    root.children_mut()[1].insert(Data::new(4, [3]));
    root.remove(&Data::new(2, [1]));
    assert_eq!(root.children().len(), 1);
    assert_eq!(root.children()[0].children().len(), 1);
    assert_eq!(root.children()[0].children()[0].value(), &Data::new(4, [3]));
    assert_eq!(root.depth(), 3);
}
