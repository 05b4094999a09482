use scoph::common::{toodee_pattern, NodeAction, TRRBTPattern};
use scoph::interpreter::{BehaviorTree, Call, StackState};
use scoph::parse::{Node, TRRBTDocument};
use scoph::prelude::Interpreter;

fn face_board() -> TRRBTPattern {
    TRRBTPattern::from_layers(vec![(
        "main".to_string(),
        toodee_pattern(3, 3, ["👁️‍🗨️", "_", "👁️‍🗨️", "_", "👃", "_", "<", "---", ">"]),
    )])
}

fn document(name: &str, desc: &str, tree: Node) -> TRRBTDocument {
    TRRBTDocument { name: name.to_string(), desc: desc.to_string(), tree }
}

/// Runs the interpreter for at most `limit` steps and returns the boards it
/// shows, as a visitor would see them.
fn run_collecting(interpreter: &mut Interpreter, limit: usize) -> Vec<TRRBTPattern> {
    let mut boards = Vec::new();
    let mut steps = 0;
    while !interpreter.is_finished() && steps < limit {
        assert!(interpreter.can_step());
        if let Some(board) = interpreter.step_and_show() {
            boards.push(board.clone());
        }
        steps += 1;
    }
    boards
}

#[test]
fn test_only_set_board() {
    let doc = document(
        "Only set-board",
        "A single set-board node on the call stack",
        Node::new(NodeAction::SetBoard { pattern: face_board() }),
    );
    let bt = BehaviorTree::from_document(doc);
    let mut interpreter = Interpreter::new(bt);
    assert_eq!(interpreter.tree().name(), "Only set-board");
    assert_eq!(interpreter.tree().description(), "A single set-board node on the call stack");

    let boards = run_collecting(&mut interpreter, 100);
    assert_eq!(boards.as_slice(), &[face_board()]);
    assert!(interpreter.is_finished());
}

#[test]
fn test_loop_until_all_with_set_board() {
    let mut root = Node::new(NodeAction::LoopUntilAll);
    root.info = scoph::common::Info::new(None, None);
    root.add_child(Node::new(NodeAction::SetBoard { pattern: face_board() }));
    let doc = document(
        "loop-until-all + set-board",
        "Expected to run forever because set-board always succeeds",
        root,
    );
    let bt = BehaviorTree::from_document(doc);
    let mut interpreter = Interpreter::new(bt);
    assert_eq!(interpreter.tree().name(), "loop-until-all + set-board");
    assert_eq!(
        interpreter.tree().description(),
        "Expected to run forever because set-board always succeeds"
    );

    let boards = run_collecting(&mut interpreter, 10_000);
    assert_eq!(boards.len(), 5_000);
    assert!(!interpreter.is_finished());
    for board in &boards {
        assert_eq!(board, &face_board());
    }
}

#[test]
fn set_board_step_reports_success_and_pops() {
    let bt = BehaviorTree::from_document(document(
        "n",
        "d",
        Node::new(NodeAction::SetBoard { pattern: face_board() }),
    ));
    let mut interpreter = Interpreter::new(bt);
    assert_eq!(interpreter.call_stack().len(), 1);
    assert_eq!(interpreter.step(), Some(true));
    assert!(interpreter.call_stack().is_empty());
    assert_eq!(interpreter.board(), &face_board());
    assert!(!interpreter.can_step());
}

#[test]
fn empty_loop_finishes_with_failure() {
    let bt = BehaviorTree::from_document(document("n", "d", Node::new(NodeAction::LoopUntilAll)));
    let mut interpreter = Interpreter::new(bt);
    assert_eq!(
        interpreter.call_stack(),
        &[Call {
            node_index: 0,
            child: 0,
            state: StackState::LoopUntilAll { any_success: false, all_failed: true },
        }]
    );
    assert_eq!(interpreter.step(), Some(false));
    assert!(interpreter.is_finished());
    assert_eq!(interpreter.board(), &TRRBTPattern::default());
}

#[test]
fn loop_records_child_success() {
    let mut root = Node::new(NodeAction::LoopUntilAll);
    root.add_child(Node::new(NodeAction::SetBoard { pattern: face_board() }));
    let mut interpreter = Interpreter::new(BehaviorTree::from_document(document("n", "d", root)));
    assert_eq!(interpreter.step(), None);
    assert_eq!(interpreter.call_stack().len(), 2);
    assert_eq!(interpreter.call_stack()[1].node_index, 1);
    assert_eq!(interpreter.call_stack()[1].state, StackState::SingleAction);
    assert_eq!(interpreter.step(), Some(true));
    assert_eq!(
        interpreter.call_stack(),
        &[Call {
            node_index: 0,
            child: 0,
            state: StackState::LoopUntilAll { any_success: true, all_failed: false },
        }]
    );
}

#[test]
fn loop_calls_last_child_first() {
    let mut root = Node::new(NodeAction::LoopUntilAll);
    root.add_child(Node::new(NodeAction::SetBoard { pattern: TRRBTPattern::filled("a", 1, 1) }));
    root.add_child(Node::new(NodeAction::SetBoard { pattern: TRRBTPattern::filled("b", 1, 1) }));
    let mut interpreter = Interpreter::new(BehaviorTree::from_document(document("n", "d", root)));
    interpreter.step();
    assert_eq!(interpreter.call_stack()[1].node_index, 2);
    interpreter.step();
    assert_eq!(interpreter.board(), &TRRBTPattern::filled("b", 1, 1));
}

#[test]
fn only_finishing_steps_show_the_board() {
    let mut root = Node::new(NodeAction::LoopUntilAll);
    root.add_child(Node::new(NodeAction::SetBoard { pattern: face_board() }));
    let mut interpreter = Interpreter::new(BehaviorTree::from_document(document("n", "d", root)));
    assert!(interpreter.step_and_show().is_none());
    assert_eq!(interpreter.step_and_show(), Some(&face_board()));
    assert!(interpreter.step_and_show().is_none());
}

#[test]
fn neighbors_of_a_missing_node_are_empty() {
    let tree = BehaviorTree::from_document(document("n", "d", Node::new(NodeAction::Draw)));
    assert_eq!(tree.node_count(), 1);
    assert!(tree.get_node_neighbors(1).is_empty());
    assert!(tree.get_node_neighbors(usize::MAX).is_empty());
}

#[test]
fn rewrite_cannot_step_yet() {
    let bt = BehaviorTree::from_document(document(
        "n",
        "d",
        Node::new(NodeAction::Rewrite {
            lhs: TRRBTPattern::filled("_", 1, 1),
            rhs: TRRBTPattern::filled("X", 1, 1),
        }),
    ));
    let interpreter = Interpreter::new(bt);
    assert!(!interpreter.is_finished());
    assert!(!interpreter.can_step());
}

#[test]
fn loop_over_unsupported_child_cannot_step() {
    let mut root = Node::new(NodeAction::LoopUntilAll);
    root.add_child(Node::new(NodeAction::Order));
    let interpreter = Interpreter::new(BehaviorTree::from_document(document("n", "d", root)));
    assert!(!interpreter.can_step());
}
