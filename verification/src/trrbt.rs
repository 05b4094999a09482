//! The first document format for behaviour trees: nodes carry their
//! identifier and comment directly, and a pattern is a single grid of tiles
//! under the name `main`.
use crate::common::{rows_view, uniform_rows};
use vstd::prelude::*;

verus! {

/// A behaviour tree as a document holds it.
#[derive(Debug)]
pub struct TRRBTDocument {
    pub name: String,
    pub desc: String,
    pub tree: Node,
}

/// A node of a document tree.
#[derive(Debug, PartialEq, Eq)]
pub struct Node {
    pub nid: Option<String>,
    pub comment: Option<String>,
    children: Vec<Node>,
    pub action: NodeAction,
}

impl Node {
    /// The children, first to last.
    pub closed spec fn child_list(self) -> Seq<Node> {
        self.children@
    }

    /// The action.
    pub closed spec fn action_of(self) -> NodeAction {
        self.action
    }

    /// The identifier, by its characters.
    pub closed spec fn id_of(self) -> Option<Seq<char>> {
        crate::common::opt_string_view(self.nid)
    }

    /// The comment, by its characters.
    pub closed spec fn comment_of(self) -> Option<Seq<char>> {
        crate::common::opt_string_view(self.comment)
    }

    /// The `i`-th child, if there is one.
    pub open spec fn child_at(self, i: int) -> Option<Node> {
        if 0 <= i < self.child_list().len() {
            Some(self.child_list()[i])
        } else {
            None
        }
    }

    /// A node with no identifier, no comment and no children.
    pub fn new(action: NodeAction) -> (node: Self)
        ensures
            node.action_of() == action,
            node.id_of() is None,
            node.comment_of() is None,
            node.child_list().len() == 0,
    {
        Node { nid: None, comment: None, children: Vec::new(), action }
    }

    /// Gives the node the identifier `id`.
    pub fn set_id(&mut self, id: &str)
        ensures
            final(self).id_of() == Some(id@),
            final(self).comment_of() == old(self).comment_of(),
            final(self).child_list() == old(self).child_list(),
            final(self).action_of() == old(self).action_of(),
    {
        self.nid = Some(id.to_string());
    }

    /// Appends `node` as the last child.
    pub fn add_child(&mut self, node: Node)
        ensures
            final(self).child_list() == old(self).child_list().push(node),
            final(self).id_of() == old(self).id_of(),
            final(self).comment_of() == old(self).comment_of(),
            final(self).action_of() == old(self).action_of(),
    {
        self.children.push(node);
    }

    /// The `i`-th child, if there is one.
    pub fn get_child(&self, i: usize) -> (child: Option<&Self>)
        ensures
            match child {
                Some(c) => self.child_at(i as int) == Some(*c),
                None => self.child_at(i as int) is None,
            },
            i < self.child_list().len() ==> child == Some(&self.child_list()[i as int]),
            i >= self.child_list().len() ==> child is None,
    {
        if i < self.children.len() {
            Some(&self.children[i])
        } else {
            None
        }
    }
}

/// A child appended to a node is found again at the position after the
/// earlier children, and the earlier children keep their positions.
pub proof fn lemma_add_child_get_child(before: Node, after: Node, child: Node)
    requires
        after.child_list() == before.child_list().push(child),
    ensures
        after.child_at(before.child_list().len() as int) == Some(child),
        forall|i: int| 0 <= i < before.child_list().len() ==> after.child_at(i) == before.child_at(i),
        after.child_at(before.child_list().len() + 1int) is None,
{
}

/// A node has a child at exactly the positions below its number of
/// children, and there it is the child in that position: every position at
/// or past the end has none.
pub proof fn lemma_child_at_in_range(node: Node, i: int)
    ensures
        0 <= i < node.child_list().len() ==> node.child_at(i) == Some(node.child_list()[i]),
        i >= node.child_list().len() ==> node.child_at(i) is None,
        node.child_at(i) is Some <==> 0 <= i < node.child_list().len(),
{
}

/// The name of a player.
#[derive(Debug, PartialEq, Eq)]
pub struct PlayerId(pub String);

/// A grid of tiles, row by row.
#[derive(Debug, PartialEq, Eq)]
pub struct Pattern {
    main: Vec<Vec<String>>,
}

impl View for Pattern {
    type V = Seq<Seq<Seq<char>>>;

    closed spec fn view(&self) -> Self::V {
        rows_view(self.main@)
    }
}

impl Pattern {
    /// The pattern whose rows are `main`.
    pub fn new(main: Vec<Vec<String>>) -> (pattern: Self)
        ensures
            pattern@ == rows_view(main@),
    {
        Pattern { main }
    }

    /// The rows of the pattern.
    pub fn main(&self) -> (rows: &Vec<Vec<String>>)
        ensures
            rows_view(rows@) == self@,
    {
        &self.main
    }

    /// `h` rows of `w` copies of `cell_pattern`.
    pub fn filled(cell_pattern: &str, w: usize, h: usize) -> (pattern: Self)
        ensures
            pattern@ == uniform_rows(cell_pattern@, w as nat, h as nat),
    {
        let mut main: Vec<Vec<String>> = Vec::new();
        let mut i: usize = 0;
        while i < h
            invariant
                i <= h,
                rows_view(main@) == uniform_rows(cell_pattern@, w as nat, i as nat),
            decreases h - i,
        {
            let mut row: Vec<String> = Vec::new();
            let mut j: usize = 0;
            while j < w
                invariant
                    j <= w,
                    row@.len() == j,
                    forall|k: int| 0 <= k < j ==> #[trigger] row@[k]@ == cell_pattern@,
                decreases w - j,
            {
                row.push(cell_pattern.to_string());
                j = j + 1;
            }
            let ghost before = main@;
            main.push(row);
            proof {
                assert(crate::common::cells_view(row@) =~= Seq::new(w as nat, |c: int| cell_pattern@));
                assert(rows_view(main@) =~= rows_view(before).push(crate::common::cells_view(row@)));
                assert(rows_view(main@) =~= uniform_rows(cell_pattern@, w as nat, (i + 1) as nat));
            }
            i = i + 1;
        }
        Pattern { main }
    }
}

/// The repetition count that a document gets when it names none.
pub fn one_times() -> (times: u32)
    ensures
        times == 1,
{
    1
}

/// What a node of a behaviour tree does.
#[derive(Debug, PartialEq, Eq)]
pub enum NodeAction {
    // Tree macros
    XIdent,
    XPrune,
    XMirror { remorig: bool },
    XSkew { remorig: bool },
    XRotate { remorig: bool },
    XSpin { remorig: bool },
    XFlip { remorig: bool },
    XSwap { what: String, with: String },
    XReplace { what: String, withs: Vec<String> },
    XUnrollReplace { what: String },
    XLink { target: String },
    // Players and outcomes
    Player { pid: PlayerId },
    Win { pid: PlayerId },
    Lose { pid: PlayerId },
    Draw,
    // Control flow
    Order,
    All,
    NoneOf,
    RandomTry,
    LoopUntilAll,
    LoopTimes { times: u32 },
    // Board rewrites
    SetBoard { pattern: Pattern },
    AppendRows { pattern: Pattern },
    AppendColumns { pattern: Pattern },
    Rewrite { lhs: Pattern, rhs: Pattern },
    RewriteAll { lhs: Pattern, rhs: Pattern },
    LayerTemplate { layer: String, with: String },
    // Conditions
    Match { pattern: Pattern },
    MatchTimes { times: u32, pattern: Pattern },
}

impl NodeAction {
    /// A rotation that keeps the original.
    pub fn default_x_rotate() -> (action: Self)
        ensures
            action == (NodeAction::XRotate { remorig: false }),
    {
        NodeAction::XRotate { remorig: false }
    }

    /// A skew that keeps the original.
    pub fn default_x_skew() -> (action: Self)
        ensures
            action == (NodeAction::XSkew { remorig: false }),
    {
        NodeAction::XSkew { remorig: false }
    }
}

} // verus!
