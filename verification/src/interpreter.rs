//! Runs a behaviour tree against a board. The interpreter keeps a call
//! stack of the nodes being run; each step looks at the call on top, acts
//! on the board or pushes a child, and pops the call when it finishes,
//! telling its caller whether it succeeded.
mod tree;

pub use tree::{
    adjacency_ok,
    attach,
    child_starts,
    edge_total,
    forest_built,
    fits_in_graph,
    forest_size,
    lemma_child_starts_index,
    lemma_child_starts_len,
    lemma_forest_built_append,
    lemma_forest_built_len,
    lemma_forest_size_append,
    lemma_tree_built_children,
    lemma_tree_built_len,
    parent_edges,
    successors_ok,
    tree_built,
    tree_size,
    BehaviorEdge,
    BehaviorNode,
    BehaviorTree,
};
use crate::common::{GridView, NodeAction, TRRBTPattern};
use vstd::prelude::*;

verus! {

/// What a call remembers between steps.
#[derive(Debug, Clone, Copy, PartialEq, Eq, Structural)]
pub enum StackState {
    /// A loop over the children: whether any child succeeded, and whether
    /// no child has succeeded yet.
    LoopUntilAll { any_success: bool, all_failed: bool },
    /// A node that finishes in one step.
    SingleAction,
}

/// A node being run: its index, the child it is at, and its state.
#[derive(Debug, Clone, Copy, PartialEq, Eq, Structural)]
pub struct Call {
    pub node_index: usize,
    pub child: u32,
    pub state: StackState,
}

/// The view of a board: each layer name mapped to the layer's rows and
/// dimensions.
pub type BoardView = Map<Seq<char>, GridView>;

/// The graph nodes of a tree, each with its successors.
pub type Adjacency = Seq<(BehaviorNode, Seq<usize>)>;

/// The actions that the interpreter can put on its call stack.
pub open spec fn is_supported_call(action: NodeAction) -> bool {
    action is LoopUntilAll || action is SetBoard || action is Rewrite
}

/// The state a call starts in.
pub open spec fn initial_state(action: NodeAction) -> StackState {
    if action is LoopUntilAll {
        StackState::LoopUntilAll { any_success: false, all_failed: true }
    } else {
        StackState::SingleAction
    }
}

/// A fresh call of node `index`.
pub open spec fn new_call(adj: Adjacency, index: usize) -> Call {
    Call { node_index: index, child: 0, state: initial_state(adj[index as int].0.action) }
}

/// The stack after its top call finishes: the call is popped, and when it
/// succeeded and its caller is a loop, the loop records that a child
/// succeeded.
pub open spec fn finish_call(stack: Seq<Call>, did_succeed: bool) -> Seq<Call> {
    let rest = stack.drop_last();
    if rest.len() > 0 && did_succeed && rest.last().state is LoopUntilAll {
        rest.update(
            rest.len() - 1,
            Call {
                node_index: rest.last().node_index,
                child: rest.last().child,
                state: StackState::LoopUntilAll { any_success: true, all_failed: false },
            },
        )
    } else {
        rest
    }
}

/// The top call is a loop that has run past its last child without any
/// child succeeding.
pub open spec fn loop_is_done(adj: Adjacency, top: Call) -> bool {
    &&& top.child >= adj[top.node_index as int].1.len()
    &&& match top.state {
        StackState::LoopUntilAll { all_failed, .. } => all_failed,
        StackState::SingleAction => false,
    }
}

/// What a loop call reports when it is done.
pub open spec fn loop_outcome(top: Call) -> bool {
    match top.state {
        StackState::LoopUntilAll { any_success, .. } => any_success,
        StackState::SingleAction => false,
    }
}

/// The child a loop call moves to: the same one, or the first when it has
/// run past its last child.
pub open spec fn loop_child(adj: Adjacency, top: Call) -> u32 {
    if top.child >= adj[top.node_index as int].1.len() {
        0
    } else {
        top.child
    }
}

/// One step: the board, the stack, and the result of the call that the
/// step finished, if it finished one.
pub open spec fn step_spec(adj: Adjacency, board: BoardView, stack: Seq<Call>) -> (
    BoardView,
    Seq<Call>,
    Option<bool>,
) {
    let top = stack.last();
    let successors = adj[top.node_index as int].1;
    match adj[top.node_index as int].0.action {
        NodeAction::LoopUntilAll => {
            if loop_is_done(adj, top) {
                (board, finish_call(stack, loop_outcome(top)), Some(loop_outcome(top)))
            } else {
                let child = loop_child(adj, top);
                let moved = stack.update(
                    stack.len() - 1,
                    Call { node_index: top.node_index, child, state: top.state },
                );
                if (child as int) < successors.len() {
                    (board, moved.push(new_call(adj, successors[child as int])), None)
                } else {
                    (board, moved, None)
                }
            }
        },
        NodeAction::SetBoard { pattern } => (pattern@, finish_call(stack, true), Some(true)),
        _ => (board, stack, None),
    }
}

/// The step from this stack would hit an action the interpreter does not
/// run yet: a rewrite on top, or a loop that would call an action other
/// than a loop, a set-board or a rewrite.
pub open spec fn step_panics(adj: Adjacency, stack: Seq<Call>) -> bool {
    let top = stack.last();
    let successors = adj[top.node_index as int].1;
    match adj[top.node_index as int].0.action {
        NodeAction::LoopUntilAll => {
            &&& !loop_is_done(adj, top)
            &&& (loop_child(adj, top) as int) < successors.len()
            &&& !is_supported_call(adj[successors[loop_child(adj, top) as int] as int].0.action)
        },
        NodeAction::SetBoard { .. } => false,
        _ => true,
    }
}

/// When a call finishes, only the call directly below it changes: the
/// finished call is popped, every call further down stays as it was, and
/// the new top keeps its node and child and, when the finished call
/// succeeded and the new top is a loop, records that a child succeeded.
pub proof fn lemma_finish_call_updates_caller(stack: Seq<Call>, did_succeed: bool)
    requires
        stack.len() > 0,
    ensures
        finish_call(stack, did_succeed).len() == stack.len() - 1,
        forall|k: int|
            0 <= k < stack.len() - 2 ==> #[trigger] finish_call(stack, did_succeed)[k] == stack[k],
        stack.len() >= 2 ==> {
            let caller = stack[stack.len() - 2];
            let now = finish_call(stack, did_succeed)[stack.len() - 2];
            &&& now.node_index == caller.node_index
            &&& now.child == caller.child
            &&& now.state == if did_succeed && caller.state is LoopUntilAll {
                StackState::LoopUntilAll { any_success: true, all_failed: false }
            } else {
                caller.state
            }
        },
{
}

/// A step of a set-board call on top of a stack of any depth sets the board
/// to its pattern, reports success, pops the call, and changes no other call
/// but the one directly below it, which, when it is a loop, records that a
/// child succeeded.
pub proof fn lemma_set_board_step_updates_caller(adj: Adjacency, board: BoardView, stack: Seq<Call>)
    requires
        stack.len() > 0,
        adj[stack.last().node_index as int].0.action is SetBoard,
    ensures
        !step_panics(adj, stack),
        step_spec(adj, board, stack).0 == adj[stack.last().node_index as int].0.action->SetBoard_pattern@,
        step_spec(adj, board, stack).2 == Some(true),
        step_spec(adj, board, stack).1.len() == stack.len() - 1,
        forall|k: int|
            0 <= k < stack.len() - 2 ==> #[trigger] step_spec(adj, board, stack).1[k] == stack[k],
        stack.len() >= 2 ==> {
            let caller = stack[stack.len() - 2];
            let now = step_spec(adj, board, stack).1[stack.len() - 2];
            &&& now.node_index == caller.node_index
            &&& now.child == caller.child
            &&& now.state == if caller.state is LoopUntilAll {
                StackState::LoopUntilAll { any_success: true, all_failed: false }
            } else {
                caller.state
            }
        },
{
    lemma_finish_call_updates_caller(stack, true);
}

/// A loop on top that has not run past its last child with every child
/// failing can always take its step when the child it calls next is a loop,
/// a set-board or a rewrite (or when it has no child to call): loops nest
/// inside loops.
pub proof fn lemma_loop_step_with_runnable_child(adj: Adjacency, stack: Seq<Call>)
    requires
        stack.len() > 0,
        adj[stack.last().node_index as int].0.action is LoopUntilAll,
        (loop_child(adj, stack.last()) as int) < adj[stack.last().node_index as int].1.len() ==> {
            let next = adj[adj[stack.last().node_index as int].1[loop_child(adj, stack.last()) as int] as int].0.action;
            next is LoopUntilAll || next is SetBoard || next is Rewrite
        },
    ensures
        !step_panics(adj, stack),
{
}

/// A step of a loop call on top, spelled out. When the loop has run past its
/// last child and no child has succeeded since it last started over, it
/// finishes, reporting whether any child ever succeeded. Otherwise it
/// reports nothing and leaves the board alone: it goes back to its first
/// child when it has run past its last one, keeps every call below it, and
/// calls the child it is at, freshly (a loop child starts with no child
/// succeeded, any other child as a single action).
pub proof fn lemma_loop_step(adj: Adjacency, board: BoardView, stack: Seq<Call>)
    requires
        stack.len() > 0,
        adj[stack.last().node_index as int].0.action is LoopUntilAll,
    ensures
        ({
            let top = stack.last();
            let successors = adj[top.node_index as int].1;
            let out = step_spec(adj, board, stack);
            let finishes = top.child >= successors.len() && top.state matches StackState::LoopUntilAll {
                all_failed: true,
                ..
            };
            let c: u32 = if top.child >= successors.len() {
                0
            } else {
                top.child
            };
            &&& out.0 == board
            &&& finishes ==> out.2 == Some(top.state->any_success) && out.1 == finish_call(
                stack,
                top.state->any_success,
            )
            &&& !finishes ==> {
                &&& out.2 is None
                &&& out.1.len() == if (c as int) < successors.len() {
                    stack.len() + 1
                } else {
                    stack.len() + 0
                }
                &&& forall|k: int| 0 <= k < stack.len() - 1 ==> #[trigger] out.1[k] == stack[k]
                &&& out.1[stack.len() - 1] == Call {
                    node_index: top.node_index,
                    child: c,
                    state: top.state,
                }
                &&& (c as int) < successors.len() ==> out.1[stack.len() as int] == Call {
                    node_index: successors[c as int],
                    child: 0,
                    state: if adj[successors[c as int] as int].0.action is LoopUntilAll {
                        StackState::LoopUntilAll { any_success: false, all_failed: true }
                    } else {
                        StackState::SingleAction
                    },
                }
            }
        }),
{
}

/// The stack holds calls of nodes of the tree with supported actions, each
/// in the state its action calls for.
pub open spec fn stack_ok(adj: Adjacency, stack: Seq<Call>) -> bool {
    forall|k: int|
        0 <= k < stack.len() ==> {
            &&& (#[trigger] stack[k]).node_index < adj.len()
            &&& is_supported_call(adj[stack[k].node_index as int].0.action)
            &&& (stack[k].state is LoopUntilAll <==> adj[stack[k].node_index as int].0.action is LoopUntilAll)
        }
}

/// The tree is well formed and the stack fits it.
pub open spec fn state_ok(adj: Adjacency, stack: Seq<Call>) -> bool {
    &&& adjacency_ok(adj)
    &&& adj.len() < u32::MAX
    &&& stack_ok(adj, stack)
}

/// Calls of the same nodes, in the same kind of state, as a prefix of a
/// stack that fits the tree fit it too.
pub proof fn lemma_stack_ok_same_shape(adj: Adjacency, s: Seq<Call>, t: Seq<Call>)
    requires
        stack_ok(adj, s),
        t.len() <= s.len(),
        forall|k: int|
            0 <= k < t.len() ==> (#[trigger] t[k]).node_index == s[k].node_index && (t[k].state is LoopUntilAll
                <==> s[k].state is LoopUntilAll),
    ensures
        stack_ok(adj, t),
{
    assert forall|k: int| 0 <= k < t.len() implies {
        &&& (#[trigger] t[k]).node_index < adj.len()
        &&& is_supported_call(adj[t[k].node_index as int].0.action)
        &&& (t[k].state is LoopUntilAll <==> adj[t[k].node_index as int].0.action is LoopUntilAll)
    } by {
        assert(t[k].node_index == s[k].node_index);
    }
}

/// A fresh call of a node with a supported action can go on a stack that
/// fits the tree.
pub proof fn lemma_stack_ok_push(adj: Adjacency, s: Seq<Call>, index: usize)
    requires
        stack_ok(adj, s),
        index < adj.len(),
        is_supported_call(adj[index as int].0.action),
    ensures
        stack_ok(adj, s.push(new_call(adj, index))),
{
    let t = s.push(new_call(adj, index));
    assert forall|k: int| 0 <= k < t.len() implies {
        &&& (#[trigger] t[k]).node_index < adj.len()
        &&& is_supported_call(adj[t[k].node_index as int].0.action)
        &&& (t[k].state is LoopUntilAll <==> adj[t[k].node_index as int].0.action is LoopUntilAll)
    } by {
        if k < s.len() {
            assert(t[k] == s[k]);
        }
    }
}

/// A step that does not panic keeps the stack fitting the tree.
pub proof fn lemma_step_keeps_state_ok(adj: Adjacency, board: BoardView, stack: Seq<Call>)
    requires
        state_ok(adj, stack),
        stack.len() > 0,
        !step_panics(adj, stack),
    ensures
        state_ok(adj, step_spec(adj, board, stack).1),
{
    let top = stack.last();
    assert(stack[stack.len() - 1] == top);
    let next = step_spec(adj, board, stack).1;
    let rest = stack.drop_last();
    if next.len() <= rest.len() {
        lemma_stack_ok_same_shape(adj, stack, next);
    } else {
        let child = loop_child(adj, top);
        let moved = stack.update(
            stack.len() - 1,
            Call { node_index: top.node_index, child, state: top.state },
        );
        lemma_stack_ok_same_shape(adj, stack, moved);
        if (child as int) < adj[top.node_index as int].1.len() {
            let target = adj[top.node_index as int].1[child as int];
            assert(target < adj.len());
            lemma_stack_ok_push(adj, moved, target);
        }
    }
}

/// The visitor that shows a run on standard output.
pub struct Printer;

/// Runs a behaviour tree: a tree, a board, and a stack of calls.
pub struct Interpreter {
    tree: BehaviorTree,
    board: TRRBTPattern,
    call_stack: Vec<Call>,
}

impl Interpreter {
    /// The tree being run.
    pub closed spec fn tree_spec(&self) -> BehaviorTree {
        self.tree
    }

    /// The nodes of the tree being run.
    pub closed spec fn adjacency(&self) -> Adjacency {
        self.tree.adjacency()
    }

    /// The board.
    pub closed spec fn board_view(&self) -> BoardView {
        self.board@
    }

    /// The call stack, bottom first.
    pub closed spec fn stack(&self) -> Seq<Call> {
        self.call_stack@
    }

    /// The stack fits the tree.
    pub closed spec fn wf(&self) -> bool {
        state_ok(self.tree.adjacency(), self.call_stack@)
    }

    /// An interpreter about to run `tree` from its root, with an empty
    /// board. The root must be a loop, a set-board or a rewrite: the
    /// interpreter runs no other action yet.
    pub fn new(tree: BehaviorTree) -> (out: Self)
        requires
            is_supported_call(tree.adjacency()[tree.root_spec() as int].0.action),
        ensures
            out.wf(),
            out.tree_spec() == tree,
            out.adjacency() == tree.adjacency(),
            out.board_view() == BoardView::empty(),
            out.stack() == seq![new_call(tree.adjacency(), tree.root_spec())],
    {
        let root = tree.root();
        let mut out = Interpreter { tree, board: TRRBTPattern::default(), call_stack: Vec::new() };
        out.push_call(root);
        proof {
            assert(out.call_stack@ =~= seq![new_call(out.tree.adjacency(), root)]);
        }
        out
    }

    /// Whether an interpreter can start on `tree`: its root is a loop, a
    /// set-board or a rewrite.
    pub fn can_start(tree: &BehaviorTree) -> (can: bool)
        ensures
            can == is_supported_call(tree.adjacency()[tree.root_spec() as int].0.action),
    {
        let root = tree.root();
        match tree.get_node_action(root) {
            NodeAction::LoopUntilAll => true,
            NodeAction::SetBoard { .. } => true,
            NodeAction::Rewrite { .. } => true,
            _ => false,
        }
    }

    /// Pushes a fresh call of node `node_index`.
    fn push_call(&mut self, node_index: usize)
        requires
            adjacency_ok(old(self).tree.adjacency()),
            old(self).tree.adjacency().len() < u32::MAX,
            stack_ok(old(self).tree.adjacency(), old(self).call_stack@),
            node_index < old(self).tree.adjacency().len(),
            is_supported_call(old(self).tree.adjacency()[node_index as int].0.action),
        ensures
            final(self).tree == old(self).tree,
            final(self).board == old(self).board,
            final(self).call_stack@ == old(self).call_stack@.push(
                new_call(old(self).tree.adjacency(), node_index),
            ),
            stack_ok(final(self).tree.adjacency(), final(self).call_stack@),
    {
        let state = match self.tree.get_node_action(node_index) {
            NodeAction::LoopUntilAll => StackState::LoopUntilAll {
                any_success: false,
                all_failed: true,
            },
            _ => StackState::SingleAction,
        };
        proof {
            lemma_stack_ok_push(self.tree.adjacency(), self.call_stack@, node_index);
        }
        self.call_stack.push(Call { node_index, child: 0, state });
    }

    /// The tree being run.
    pub fn tree(&self) -> (tree: &BehaviorTree)
        ensures
            *tree == self.tree_spec(),
    {
        &self.tree
    }

    /// The board.
    pub fn board(&self) -> (board: &TRRBTPattern)
        ensures
            board@ == self.board_view(),
    {
        &self.board
    }

    /// The call stack, bottom first.
    pub fn call_stack(&self) -> (stack: &[Call])
        ensures
            stack@ == self.stack(),
    {
        self.call_stack.as_slice()
    }

    /// Whether every call has finished.
    pub fn is_finished(&self) -> (finished: bool)
        ensures
            finished == (self.stack().len() == 0),
    {
        self.call_stack.len() == 0
    }

    /// Whether a step can be taken: some call is unfinished and the step
    /// would not reach an action the interpreter does not run yet.
    pub fn can_step(&self) -> (can: bool)
        requires
            self.wf(),
        ensures
            can == (self.stack().len() > 0 && !step_panics(self.adjacency(), self.stack())),
            self.stack().len() == 0 ==> !can,
            self.stack().len() > 0 ==> {
                let top = self.stack().last();
                let successors = self.adjacency()[top.node_index as int].1;
                let next = self.adjacency()[successors[loop_child(self.adjacency(), top) as int] as int].0.action;
                &&& self.adjacency()[top.node_index as int].0.action is SetBoard ==> can
                &&& self.adjacency()[top.node_index as int].0.action is LoopUntilAll ==> (
                    (loop_child(self.adjacency(), top) as int) >= successors.len()
                    || next is LoopUntilAll || next is SetBoard || next is Rewrite ==> can)
                &&& !(self.adjacency()[top.node_index as int].0.action is LoopUntilAll
                    || self.adjacency()[top.node_index as int].0.action is SetBoard) ==> !can
                &&& (self.adjacency()[top.node_index as int].0.action is LoopUntilAll
                    && !(top.child >= successors.len() && top.state matches StackState::LoopUntilAll {
                    all_failed: true,
                    ..
                }) && (loop_child(self.adjacency(), top) as int) < successors.len() && !(next is LoopUntilAll
                    || next is SetBoard || next is Rewrite)) ==> !can
            },
    {
        if self.call_stack.len() == 0 {
            return false;
        }
        let top = self.call_stack[self.call_stack.len() - 1];
        match self.tree.get_node_action(top.node_index) {
            NodeAction::LoopUntilAll => {
                let neighbors = self.tree.get_node_neighbors(top.node_index);
                let done = top.child >= neighbors.len() as u32 && match top.state {
                    StackState::LoopUntilAll { all_failed, .. } => all_failed,
                    StackState::SingleAction => false,
                };
                if done {
                    return true;
                }
                let child = if top.child >= neighbors.len() as u32 {
                    0
                } else {
                    top.child
                };
                if (child as usize) < neighbors.len() {
                    proof {
                        assert(self.adjacency()[top.node_index as int].1[child as int]
                            < self.adjacency().len());
                    }
                    match self.tree.get_node_action(neighbors[child as usize]) {
                        NodeAction::LoopUntilAll => true,
                        NodeAction::SetBoard { .. } => true,
                        NodeAction::Rewrite { .. } => true,
                        _ => false,
                    }
                } else {
                    true
                }
            },
            NodeAction::SetBoard { .. } => true,
            _ => false,
        }
    }

    /// Takes one step and hands back the board to show a visitor: the board
    /// after a step that finished a call, and nothing after a step that only
    /// called a child.
    pub fn step_and_show(&mut self) -> (shown: Option<&TRRBTPattern>)
        requires
            old(self).wf(),
            old(self).stack().len() > 0,
            !step_panics(old(self).adjacency(), old(self).stack()),
        ensures
            final(self).wf(),
            final(self).tree_spec() == old(self).tree_spec(),
            (final(self).board_view(), final(self).stack()) == (
                step_spec(old(self).adjacency(), old(self).board_view(), old(self).stack()).0,
                step_spec(old(self).adjacency(), old(self).board_view(), old(self).stack()).1,
            ),
            shown is Some <==> step_spec(
                old(self).adjacency(),
                old(self).board_view(),
                old(self).stack(),
            ).2 is Some,
            shown matches Some(b) ==> b@ == step_spec(
                old(self).adjacency(),
                old(self).board_view(),
                old(self).stack(),
            ).0,
    {
        let finished = self.step();
        if finished.is_some() {
            Some(&self.board)
        } else {
            None
        }
    }

    /// Takes one step: the call on top acts, and the result of the call the
    /// step finished, if any, is returned (see `step_spec`).
    pub fn step(&mut self) -> (result: Option<bool>)
        requires
            old(self).wf(),
            old(self).stack().len() > 0,
            !step_panics(old(self).adjacency(), old(self).stack()),
        ensures
            final(self).wf(),
            final(self).tree_spec() == old(self).tree_spec(),
            (final(self).board_view(), final(self).stack(), result) == step_spec(
                old(self).adjacency(),
                old(self).board_view(),
                old(self).stack(),
            ),
    {
        let ghost adj = self.tree.adjacency();
        let ghost stack0 = self.call_stack@;
        let ghost board0 = self.board@;
        let last = self.call_stack.len() - 1;
        let call = self.call_stack[last];
        let mut call_result: Option<bool> = None;
        proof {
            assert(stack0[last as int] == call);
        }
        match self.tree.get_node_action(call.node_index) {
            NodeAction::LoopUntilAll => {
                let neighbors = self.tree.get_node_neighbors(call.node_index);
                let mut child = call.child;
                if call.child >= neighbors.len() as u32 {
                    match call.state {
                        StackState::LoopUntilAll { any_success, all_failed: true } => {
                            call_result = Some(any_success);
                        },
                        _ => {
                            child = 0;
                            self.call_stack.set(
                                last,
                                Call { node_index: call.node_index, child: 0, state: call.state },
                            );
                        },
                    }
                }
                if call_result.is_none() {
                    if (child as usize) < neighbors.len() {
                        proof {
                            assert(adj[call.node_index as int].1[child as int] < adj.len());
                            lemma_stack_ok_same_shape(adj, stack0, self.call_stack@);
                        }
                        self.push_call(neighbors[child as usize]);
                    }
                }
            },
            NodeAction::SetBoard { pattern } => {
                self.board = pattern.clone();
                call_result = Some(true);
            },
            _ => {
                proof {
                    assert(false);
                }
            },
        }
        if let Some(did_succeed) = call_result {
            self.call_stack.pop();
            let len = self.call_stack.len();
            if len > 0 {
                let caller = self.call_stack[len - 1];
                match caller.state {
                    StackState::LoopUntilAll { .. } => {
                        if did_succeed {
                            self.call_stack.set(
                                len - 1,
                                Call {
                                    node_index: caller.node_index,
                                    child: caller.child,
                                    state: StackState::LoopUntilAll {
                                        any_success: true,
                                        all_failed: false,
                                    },
                                },
                            );
                        }
                    },
                    StackState::SingleAction => {},
                }
            }
        }
        proof {
            assert(self.call_stack@ =~= step_spec(adj, board0, stack0).1);
            lemma_step_keeps_state_ok(adj, board0, stack0);
        }
        call_result
    }
}

/// The board and the stack after `k` steps; a run whose stack is empty has
/// finished and stays as it is.
pub open spec fn run_steps(adj: Adjacency, board: BoardView, stack: Seq<Call>, k: nat) -> (
    BoardView,
    Seq<Call>,
)
    decreases k,
{
    if k == 0 || stack.len() == 0 {
        (board, stack)
    } else {
        let next = step_spec(adj, board, stack);
        run_steps(adj, next.0, next.1, (k - 1) as nat)
    }
}

/// A loop over set-board children, while it runs: the loop at the bottom,
/// still at its first child, possibly with a call of that child above it.
pub open spec fn set_board_loop_running(adj: Adjacency, root: usize, stack: Seq<Call>) -> bool {
    &&& 1 <= stack.len() <= 2
    &&& stack[0].node_index == root
    &&& stack[0].child == 0
    &&& stack[0].state is LoopUntilAll
    &&& stack.len() == 2 ==> stack[1] == new_call(adj, adj[root as int].1[0])
}

proof fn lemma_set_board_loop_step(adj: Adjacency, root: usize, board: BoardView, stack: Seq<Call>)
    requires
        root < adj.len(),
        adj[root as int].0.action is LoopUntilAll,
        adj[root as int].1.len() > 0,
        forall|j: int|
            0 <= j < adj[root as int].1.len() ==> (#[trigger] adj[adj[root as int].1[j] as int]).0.action is SetBoard,
        set_board_loop_running(adj, root, stack),
    ensures
        !step_panics(adj, stack),
        set_board_loop_running(adj, root, step_spec(adj, board, stack).1),
{
    let first = adj[root as int].1[0];
    assert(adj[first as int].0.action is SetBoard);
    if stack.len() == 2 {
        assert(stack.drop_last() =~= seq![stack[0]]);
    } else {
        assert(stack.update(0, Call { node_index: root, child: 0, state: stack[0].state }) =~= stack);
    }
}

/// A loop whose children all set the board never finishes: from a fresh
/// call of the loop, after any number of steps the stack is not empty and
/// the next step is one the interpreter can take.
pub proof fn lemma_set_board_loop_never_ends(adj: Adjacency, root: usize, board: BoardView, k: nat)
    requires
        root < adj.len(),
        adj[root as int].0.action is LoopUntilAll,
        adj[root as int].1.len() > 0,
        forall|j: int|
            0 <= j < adj[root as int].1.len() ==> (#[trigger] adj[adj[root as int].1[j] as int]).0.action is SetBoard,
    ensures
        run_steps(adj, board, seq![new_call(adj, root)], k).1.len() > 0,
        !step_panics(adj, run_steps(adj, board, seq![new_call(adj, root)], k).1),
{
    lemma_set_board_loop_stays_running(adj, root, board, seq![new_call(adj, root)], k);
}

proof fn lemma_set_board_loop_stays_running(
    adj: Adjacency,
    root: usize,
    board: BoardView,
    stack: Seq<Call>,
    k: nat,
)
    requires
        root < adj.len(),
        adj[root as int].0.action is LoopUntilAll,
        adj[root as int].1.len() > 0,
        forall|j: int|
            0 <= j < adj[root as int].1.len() ==> (#[trigger] adj[adj[root as int].1[j] as int]).0.action is SetBoard,
        set_board_loop_running(adj, root, stack),
    ensures
        set_board_loop_running(adj, root, run_steps(adj, board, stack, k).1),
        !step_panics(adj, run_steps(adj, board, stack, k).1),
    decreases k,
{
    lemma_set_board_loop_step(adj, root, board, stack);
    if k > 0 {
        let next = step_spec(adj, board, stack);
        lemma_set_board_loop_stays_running(adj, root, next.0, next.1, (k - 1) as nat);
    }
}

/// A tree whose root sets the board finishes in one step: the board is the
/// root's pattern and the root reports success.
pub proof fn lemma_set_board_root_finishes(adj: Adjacency, root: usize, board: BoardView)
    requires
        root < adj.len(),
        adj[root as int].0.action is SetBoard,
    ensures
        !step_panics(adj, seq![new_call(adj, root)]),
        step_spec(adj, board, seq![new_call(adj, root)]) == (
            adj[root as int].0.action->SetBoard_pattern@,
            Seq::<Call>::empty(),
            Some(true),
        ),
        run_steps(adj, board, seq![new_call(adj, root)], 1) == (
            adj[root as int].0.action->SetBoard_pattern@,
            Seq::<Call>::empty(),
        ),
{
    let start = seq![new_call(adj, root)];
    assert(start.drop_last() =~= Seq::<Call>::empty());
    let next = step_spec(adj, board, start);
    assert(run_steps(adj, board, start, 1) == run_steps(adj, next.0, next.1, 0));
}

/// A step changes the board only when the call on top sets the board, and
/// then the board becomes that call's pattern; such a step always finishes
/// its call.
pub proof fn lemma_step_board(adj: Adjacency, board: BoardView, stack: Seq<Call>)
    requires
        stack.len() > 0,
    ensures
        step_spec(adj, board, stack).0 == match adj[stack.last().node_index as int].0.action {
            NodeAction::SetBoard { pattern } => pattern@,
            _ => board,
        },
        adj[stack.last().node_index as int].0.action is SetBoard ==> step_spec(adj, board, stack).2
            == Some(true),
{
}

/// The board after `k` steps as the run's history tells it: the starting
/// board until a set-board call runs, then the pattern of the set-board call
/// that ran last.
pub open spec fn last_set_board(adj: Adjacency, board: BoardView, stack: Seq<Call>, k: nat) -> BoardView
    decreases k,
{
    if k == 0 || stack.len() == 0 {
        board
    } else {
        let ran = match adj[stack.last().node_index as int].0.action {
            NodeAction::SetBoard { pattern } => pattern@,
            _ => board,
        };
        last_set_board(adj, ran, step_spec(adj, board, stack).1, (k - 1) as nat)
    }
}

/// Over a whole run the board is the starting board (empty, for a fresh
/// interpreter) until a set-board call has run, and after that the pattern
/// of the set-board call that ran most recently.
pub proof fn lemma_run_board_is_last_set_board(
    adj: Adjacency,
    board: BoardView,
    stack: Seq<Call>,
    k: nat,
)
    ensures
        run_steps(adj, board, stack, k).0 == last_set_board(adj, board, stack, k),
    decreases k,
{
    if k > 0 && stack.len() > 0 {
        lemma_step_board(adj, board, stack);
        let next = step_spec(adj, board, stack);
        lemma_run_board_is_last_set_board(adj, next.0, next.1, (k - 1) as nat);
    }
}

/// In a run of a loop whose children all set the board to the same
/// pattern, every board shown to a visitor (after a step that finished a
/// call) is that pattern.
pub proof fn lemma_set_board_loop_shows_pattern(
    adj: Adjacency,
    root: usize,
    board: BoardView,
    pattern: BoardView,
    k: nat,
)
    requires
        root < adj.len(),
        adj[root as int].0.action is LoopUntilAll,
        adj[root as int].1.len() > 0,
        forall|j: int|
            0 <= j < adj[root as int].1.len() ==> (#[trigger] adj[adj[root as int].1[j] as int]).0.action is SetBoard,
        forall|j: int|
            0 <= j < adj[root as int].1.len() ==> (#[trigger] adj[adj[root as int].1[j] as int]).0.action->SetBoard_pattern@
                == pattern,
    ensures
        ({
            let now = run_steps(adj, board, seq![new_call(adj, root)], k);
            step_spec(adj, now.0, now.1).2 is Some ==> step_spec(adj, now.0, now.1).0 == pattern
        }),
{
    lemma_set_board_loop_stays_running(adj, root, board, seq![new_call(adj, root)], k);
    let now = run_steps(adj, board, seq![new_call(adj, root)], k);
    let first = adj[root as int].1[0];
    assert(adj[first as int].0.action is SetBoard);
    assert(adj[first as int].0.action->SetBoard_pattern@ == pattern);
    if now.1.len() == 1 {
        assert(now.1.last() == now.1[0]);
    } else {
        assert(now.1.last() == now.1[1]);
    }
}

} // verus!
