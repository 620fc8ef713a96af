//! The program tree that the emitter walks, and the reduction of its
//! expressions against a table of known symbols.

use vstd::prelude::*;

verus! {

/// A node of the program tree.
#[derive(Debug, PartialEq, Eq)]
pub enum Node {
    /// A sequence of top-level nodes.
    Root(Vec<Node>),
    /// A label definition; a name that begins with a dot is local.
    Label(String),
    /// A mnemonic or directive with its ordered arguments.
    Instruction(String, Vec<Node>),
    /// One argument of an instruction, wrapping its expression.
    Argument(Box<Node>),
    /// A concrete integer.
    Integer(u64),
    /// A symbolic name that stands for an integer.
    Identifier(String),
    /// A register, by index.
    Register(u32),
}

/// The mathematical value of a [`Node`]: names are character sequences and
/// children are sequences of values.
pub ghost enum NodeView {
    Root(Seq<NodeView>),
    Label(Seq<char>),
    Instruction(Seq<char>, Seq<NodeView>),
    Argument(Box<NodeView>),
    Integer(u64),
    Identifier(Seq<char>),
    Register(u32),
}

impl Node {
    /// The value of this tree.
    pub open spec fn value(&self) -> NodeView
        decreases self,
    {
        match self {
            Node::Root(nodes) => NodeView::Root(Node::values(nodes@)),
            Node::Label(name) => NodeView::Label(name@),
            Node::Instruction(name, args) => NodeView::Instruction(name@, Node::values(args@)),
            Node::Argument(inner) => NodeView::Argument(Box::new(inner.value())),
            Node::Integer(value) => NodeView::Integer(*value),
            Node::Identifier(name) => NodeView::Identifier(name@),
            Node::Register(index) => NodeView::Register(*index),
        }
    }

    /// The values of a sequence of trees, in order.
    pub open spec fn values(nodes: Seq<Node>) -> Seq<NodeView>
        decreases nodes,
    {
        Seq::new(
            nodes.len(),
            |i: int|
                if 0 <= i < nodes.len() {
                    nodes[i].value()
                } else {
                    NodeView::Root(Seq::empty())
                },
        )
    }
}

impl View for Node {
    type V = NodeView;

    open spec fn view(&self) -> NodeView {
        self.value()
    }
}

impl Clone for Node {
    /// A copy of the tree, with the same value.
    fn clone(&self) -> (copy: Node)
        ensures
            copy@ == self@,
        decreases self,
    {
        match self {
            Node::Root(nodes) => Node::Root(Node::clone_all(nodes)),
            Node::Label(name) => Node::Label(name.clone()),
            Node::Instruction(name, args) => Node::Instruction(name.clone(), Node::clone_all(args)),
            Node::Argument(inner) => Node::Argument(Box::new((&**inner).clone())),
            Node::Integer(value) => Node::Integer(*value),
            Node::Identifier(name) => Node::Identifier(name.clone()),
            Node::Register(index) => Node::Register(*index),
        }
    }
}

impl Node {
    /// Copies of the trees, in order.
    pub fn clone_all(nodes: &Vec<Node>) -> (copies: Vec<Node>)
        ensures
            Node::values(copies@) == Node::values(nodes@),
        decreases nodes,
    {
        let mut copies: Vec<Node> = Vec::new();
        let mut i: usize = 0;
        while i < nodes.len()
            invariant
                i <= nodes.len(),
                copies@.len() == i,
                forall|j: int| 0 <= j < i ==> (#[trigger] copies@[j])@ == nodes@[j]@,
            decreases nodes.len() - i,
        {
            copies.push(nodes[i].clone());
            i += 1;
        }
        assert(Node::values(copies@) =~= Node::values(nodes@));
        copies
    }
}

impl NodeView {
    /// The integer `v` if this is an argument that holds the integer `v`.
    pub open spec fn integer_argument(self) -> Option<u64> {
        match self {
            NodeView::Argument(inner) => match *inner {
                NodeView::Integer(v) => Some(v),
                _ => None,
            },
            _ => None,
        }
    }

    /// The index `r` if this is an argument that holds the register `r`.
    pub open spec fn register_argument(self) -> Option<u32> {
        match self {
            NodeView::Argument(inner) => match *inner {
                NodeView::Register(r) => Some(r),
                _ => None,
            },
            _ => None,
        }
    }

    /// The name `n` if this is an argument that holds the bare identifier `n`.
    pub open spec fn identifier_argument(self) -> Option<Seq<char>> {
        match self {
            NodeView::Argument(inner) => match *inner {
                NodeView::Identifier(n) => Some(n),
                _ => None,
            },
            _ => None,
        }
    }

    /// This tree with every identifier that `env` knows replaced by its
    /// integer, and whether no identifier is left.
    pub open spec fn simplify(self, env: Map<Seq<char>, u64>) -> (NodeView, bool)
        decreases self,
    {
        match self {
            NodeView::Identifier(name) => if env.contains_key(name) {
                (NodeView::Integer(env[name]), true)
            } else {
                (self, false)
            },
            NodeView::Argument(inner) => {
                let (reduced, done) = inner.simplify(env);
                (NodeView::Argument(Box::new(reduced)), done)
            },
            NodeView::Instruction(name, args) => (
                NodeView::Instruction(name, NodeView::simplify_all(args, env)),
                NodeView::all_resolved(args, env),
            ),
            NodeView::Root(nodes) => (
                NodeView::Root(NodeView::simplify_all(nodes, env)),
                NodeView::all_resolved(nodes, env),
            ),
            _ => (self, true),
        }
    }

    /// Each of `nodes` simplified against `env`.
    pub open spec fn simplify_all(nodes: Seq<NodeView>, env: Map<Seq<char>, u64>) -> Seq<NodeView>
        decreases nodes,
    {
        Seq::new(
            nodes.len(),
            |i: int|
                if 0 <= i < nodes.len() {
                    nodes[i].simplify(env).0
                } else {
                    NodeView::Root(Seq::empty())
                },
        )
    }

    /// Whether simplifying against `env` leaves no identifier in any of `nodes`.
    pub open spec fn all_resolved(nodes: Seq<NodeView>, env: Map<Seq<char>, u64>) -> bool
        decreases nodes,
    {
        forall|i: int| 0 <= i < nodes.len() ==> (#[trigger] nodes[i]).simplify(env).1
    }
}

impl Node {
    /// The integer `v` if this is an argument that holds the integer `v`.
    pub fn integer_argument(&self) -> (r: Option<u64>)
        ensures
            r == self@.integer_argument(),
    {
        proof {
            reveal_with_fuel(Node::value, 2);
        }
        match self {
            Node::Argument(inner) => match &**inner {
                Node::Integer(v) => Some(*v),
                _ => None,
            },
            _ => None,
        }
    }

    /// The index `r` if this is an argument that holds the register `r`.
    pub fn register_argument(&self) -> (r: Option<u32>)
        ensures
            r == self@.register_argument(),
    {
        proof {
            reveal_with_fuel(Node::value, 2);
        }
        match self {
            Node::Argument(inner) => match &**inner {
                Node::Register(r) => Some(*r),
                _ => None,
            },
            _ => None,
        }
    }

    /// The name `n` if this is an argument that holds the bare identifier `n`.
    pub fn identifier_argument(&self) -> (r: Option<&String>)
        ensures
            match r {
                Some(name) => self@.identifier_argument() == Some(name@),
                None => self@.identifier_argument() is None,
            },
    {
        proof {
            reveal_with_fuel(Node::value, 2);
        }
        match self {
            Node::Argument(inner) => match &**inner {
                Node::Identifier(n) => Some(n),
                _ => None,
            },
            _ => None,
        }
    }
}

/// The text that `Debug` formatting gives for a tree.
pub uninterp spec fn debug_text(node: NodeView) -> Seq<char>;

/// The text that `Debug` formatting gives for a pair of a byte offset and a
/// tree.
pub uninterp spec fn placed_debug_text(position: usize, node: NodeView) -> Seq<char>;

/// Formats `node` with the `Debug` implementation that `derive` wrote for
/// [`Node`]. The text is taken to depend on the value of the tree alone.
#[verifier::external_body]
pub(crate) fn node_debug_text(node: &Node) -> (text: String)
    ensures
        text@ == debug_text(node@),
{
    format!("{:?}", node)
}

/// Formats the pair of `position` and `node` with the `Debug` implementation
/// of tuples. The text is taken to depend on the offset and on the value of
/// the tree alone.
#[verifier::external_body]
pub(crate) fn placed_node_debug_text(position: usize, node: &Node) -> (text: String)
    ensures
        text@ == placed_debug_text(position, node@),
{
    format!("{:?}", (position, node))
}

} // verus!
