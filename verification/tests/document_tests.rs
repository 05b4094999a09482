use scoph::common::NodeAction;
use scoph::parse::Node;
use scoph::trrbt;

#[test]
fn parse_node_children_in_order() {
    let mut root = Node::new(NodeAction::Order);
    assert!(root.get_child(0).is_none());
    root.add_child(Node::new(NodeAction::Draw));
    root.add_child(Node::new(NodeAction::All));
    assert_eq!(root.get_child(0).unwrap().action, NodeAction::Draw);
    assert_eq!(root.get_child(1).unwrap().action, NodeAction::All);
    assert!(root.get_child(2).is_none());
}

#[test]
fn parse_node_set_id() {
    let mut n = Node::new(NodeAction::XIdent);
    assert_eq!(n.info.nid(), &None);
    n.set_id("ply");
    assert_eq!(n.info.nid(), &Some("ply".to_string()));
    n.set_id("again");
    assert_eq!(n.info.nid(), &Some("again".to_string()));
}

#[test]
fn trrbt_node_children_in_order() {
    let mut root = trrbt::Node::new(trrbt::NodeAction::Order);
    root.add_child(trrbt::Node::new(trrbt::NodeAction::Draw));
    assert_eq!(root.get_child(0).unwrap().action, trrbt::NodeAction::Draw);
    assert!(root.get_child(1).is_none());
    root.set_id("gameloop");
    assert_eq!(root.nid, Some("gameloop".to_string()));
    assert_eq!(root.comment, None);
}

#[test]
fn trrbt_pattern_filled() {
    let p = trrbt::Pattern::filled("_", 3, 2);
    let row = vec!["_".to_string(), "_".to_string(), "_".to_string()];
    assert_eq!(p, trrbt::Pattern::new(vec![row.clone(), row]));
    assert_eq!(trrbt::Pattern::filled("X", 0, 2), trrbt::Pattern::new(vec![vec![], vec![]]));
    assert_eq!(trrbt::Pattern::filled("X", 2, 0), trrbt::Pattern::new(vec![]));
}

#[test]
fn trrbt_defaults() {
    assert_eq!(trrbt::one_times(), 1);
    assert_eq!(trrbt::NodeAction::default_x_rotate(), trrbt::NodeAction::XRotate { remorig: false });
    assert_eq!(trrbt::NodeAction::default_x_skew(), trrbt::NodeAction::XSkew { remorig: false });
}

