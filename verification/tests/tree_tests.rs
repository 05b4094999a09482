use scoph::common::{Info, NodeAction, PlayerId, TRRBTPattern};
use scoph::interpreter::{fits_in_graph, BehaviorTree};
use scoph::parse::{Node, TRRBTDocument};

fn doc(tree: Node) -> TRRBTDocument {
    TRRBTDocument { name: "tree".to_string(), desc: "a tree".to_string(), tree }
}

/// order
///   set-board
///   loop-until-all (id "loop")
///     player 1
///     draw
///   win 1
fn sample() -> Node {
    let mut root = Node::new(NodeAction::Order);
    root.add_child(Node::new(NodeAction::SetBoard { pattern: TRRBTPattern::filled("_", 3, 1) }));
    let mut lp = Node::new(NodeAction::LoopUntilAll);
    lp.set_id("loop");
    lp.add_child(Node::new(NodeAction::Player { pid: PlayerId("1".to_string()) }));
    lp.add_child(Node::new(NodeAction::Draw));
    root.add_child(lp);
    root.add_child(Node::new(NodeAction::Win { pid: PlayerId("1".to_string()) }));
    root
}

#[test]
fn nodes_are_numbered_in_preorder() {
    let tree = BehaviorTree::from_document(doc(sample()));
    assert_eq!(tree.root(), 0);
    assert_eq!(tree.name(), "tree");
    assert_eq!(tree.description(), "a tree");
    assert_eq!(tree.get_node_action(0), &NodeAction::Order);
    assert_eq!(
        tree.get_node_action(1),
        &NodeAction::SetBoard { pattern: TRRBTPattern::filled("_", 3, 1) }
    );
    assert_eq!(tree.get_node_action(2), &NodeAction::LoopUntilAll);
    assert_eq!(tree.get_node_action(3), &NodeAction::Player { pid: PlayerId("1".to_string()) });
    assert_eq!(tree.get_node_action(4), &NodeAction::Draw);
    assert_eq!(tree.get_node_action(5), &NodeAction::Win { pid: PlayerId("1".to_string()) });
    assert_eq!(tree.get_node_info(2).nid(), &Some("loop".to_string()));
    assert_eq!(tree.get_node_info(3), &Info::default());
}

#[test]
fn neighbors_are_children_last_first() {
    let tree = BehaviorTree::from_document(doc(sample()));
    assert_eq!(tree.get_node_neighbors(0), vec![5, 2, 1]);
    assert_eq!(tree.get_node_neighbors(1), Vec::<usize>::new());
    assert_eq!(tree.get_node_neighbors(2), vec![4, 3]);
    assert_eq!(tree.get_node_neighbors(5), Vec::<usize>::new());
}

#[test]
fn single_node_tree() {
    let tree = BehaviorTree::from_document(doc(Node::new(NodeAction::Draw)));
    assert_eq!(tree.root(), 0);
    assert_eq!(tree.get_node_action(0), &NodeAction::Draw);
    assert!(tree.get_node_neighbors(0).is_empty());
}

#[test]
fn small_documents_fit_in_a_graph() {
    assert!(fits_in_graph(&doc(sample())));
}
