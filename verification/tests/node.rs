use dict_matcher::dict::node::{DictNode, Word};

#[test]
fn new_node_is_bare() {
    let node = DictNode::new('x');
    assert_eq!(node.state, 'x');
    assert!(matches!(node.output, Word::No));
    assert_eq!(node.parent, None);
    assert_eq!(node.suffix, None);
    assert!(node.children.is_empty());
    assert!(!node.is_root());
    assert!(!node.is_word());
}

#[test]
fn root_node_is_root() {
    let node = DictNode::root();
    assert_eq!(node.state, '\0');
    assert!(matches!(node.output, Word::Root));
    assert!(node.is_root());
    assert!(!node.is_word());
    assert_eq!(node.parent, None);
    assert!(node.children.is_empty());
}

#[test]
fn default_node_is_a_bare_node() {
    let node = DictNode::default();
    assert_eq!(node.state, '\0');
    assert!(matches!(node.output, Word::No));
    assert!(!node.is_root());
    assert!(matches!(Word::default(), Word::No));
}

#[test]
fn word_node_is_a_word() {
    let mut node = DictNode::new('d');
    node.output = Word::Yes("hold".to_string());
    assert!(node.is_word());
    assert!(!node.is_root());
}

#[test]
fn children_are_found_by_character() {
    let mut node = DictNode::new('a');
    assert!(!node.has_child('b'));
    assert_eq!(node.get_child('b'), None);
    node.add_child('b', 4);
    node.add_child('é', 7);
    assert!(node.has_child('b'));
    assert!(node.has_child('é'));
    assert!(!node.has_child('c'));
    assert_eq!(node.get_child('b'), Some(4));
    assert_eq!(node.get_child('é'), Some(7));
    assert_eq!(node.get_child('c'), None);
}

#[test]
fn adding_a_child_again_replaces_it() {
    let mut node = DictNode::new('a');
    node.add_child('b', 4);
    node.add_child('b', 5);
    assert_eq!(node.get_child('b'), Some(5));
    assert_eq!(node.get_children(), vec![5]);
}

#[test]
fn children_are_listed_each_once() {
    let mut node = DictNode::new('a');
    assert_eq!(node.get_children(), Vec::<usize>::new());
    node.add_child('x', 3);
    node.add_child('y', 1);
    node.add_child('z', 2);
    let mut ids = node.get_children();
    ids.sort();
    assert_eq!(ids, vec![1, 2, 3]);
}

#[test]
fn removed_child_is_gone() {
    let mut node = DictNode::new('a');
    node.add_child('x', 3);
    node.add_child('y', 1);
    node.remove_child('x');
    node.remove_child('q');
    assert!(!node.has_child('x'));
    assert!(node.has_child('y'));
    assert_eq!(node.get_children(), vec![1]);
}

#[test]
fn new_ptr_leads_to_a_bare_node() {
    let node = DictNode::new_ptr('q').expect("a node");
    assert_eq!(node.state, 'q');
    assert!(matches!(node.output, Word::No));
    assert_eq!(node.parent, None);
    assert_eq!(node.suffix, None);
    assert!(node.children.is_empty());
}
