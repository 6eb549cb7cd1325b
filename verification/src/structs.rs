//! The data model: node kinds, nodes, and node collections.

use vstd::prelude::*;

verus! {

/// The five node kinds of an MDT file, each written as a single letter in the
/// textual form: `D`, `O`, `P`, `C`, `N`.
#[derive(Copy, Clone, PartialEq, Eq, Structural, Debug)]
pub enum NodeType {
    Decision,
    Option,
    Pro,
    Con,
    Note,
}

/// The single-letter code of a node kind, as a spec-level character.
pub open spec fn code_char(t: NodeType) -> char {
    match t {
        NodeType::Decision => 'D',
        NodeType::Option => 'O',
        NodeType::Pro => 'P',
        NodeType::Con => 'C',
        NodeType::Note => 'N',
    }
}

/// The opposite polarity of a Pro/Con kind; other kinds map to themselves.
pub open spec fn opposite(t: NodeType) -> NodeType {
    match t {
        NodeType::Pro => NodeType::Con,
        NodeType::Con => NodeType::Pro,
        _ => t,
    }
}

impl NodeType {
    /// Decode a single-letter kind code.  Total and bijective on
    /// `{"D", "O", "P", "C", "N"}`; every other string is rejected.
    pub fn from_str(input: &str) -> (r: Result<NodeType, ()>)
        ensures
            r matches Ok(t) ==> input@ == seq![code_char(t)],
            r is Err ==> forall|t: NodeType| input@ != seq![code_char(t)],
    {
        proof {
            reveal_strlit("D");
            reveal_strlit("O");
            reveal_strlit("P");
            reveal_strlit("C");
            reveal_strlit("N");
        }
        let n = input.unicode_len();
        if n != 1 {
            return Err(());
        }
        let c = input.get_char(0);
        assert(input@ =~= seq![c]);
        match c {
            'D' => Ok(NodeType::Decision),
            'O' => Ok(NodeType::Option),
            'P' => Ok(NodeType::Pro),
            'C' => Ok(NodeType::Con),
            'N' => Ok(NodeType::Note),
            _ => Err(()),
        }
    }
}

/// The spec-level value of a [`Node`]: the same fields with mathematical
/// views in place of the heap types.
pub ghost struct NodeV {
    pub text: Seq<char>,
    pub type_is: Option<NodeType>,
    pub file_order: u32,
    pub level: u32,
    pub parent_idxs: Seq<u32>,
    pub parent_idxs_diff_type: Seq<u32>,
}

/// One node of a decision tree.
#[derive(Debug)]
pub struct Node {
    /// The human-readable content with any prefix stripped.
    pub text: String,
    /// The node kind, when the file carries type annotations.
    pub type_is: Option<NodeType>,
    /// The node's position in the emission order; unique and dense.
    pub file_order: u32,
    /// Indentation depth; `0` is a top-level node without a bullet.
    pub level: u32,
    /// `file_order` values of the primary parents.
    pub parent_idxs: Vec<u32>,
    /// `file_order` values of opposite-polarity parents (Pro/Con only).
    pub parent_idxs_diff_type: Vec<u32>,
}

impl View for Node {
    type V = NodeV;

    open spec fn view(&self) -> NodeV {
        NodeV {
            text: self.text@,
            type_is: self.type_is,
            file_order: self.file_order,
            level: self.level,
            parent_idxs: self.parent_idxs@,
            parent_idxs_diff_type: self.parent_idxs_diff_type@,
        }
    }
}

impl DeepView for Node {
    type V = NodeV;

    open spec fn deep_view(&self) -> NodeV {
        self.view()
    }
}

impl Node {
    /// Build a typed node from its parts, verbatim; validity of the parent
    /// indices is the parser's duty, not the constructor's.
    pub fn new(
        text: String,
        type_is: NodeType,
        file_order: u32,
        level: u32,
        parent_idxs: Vec<u32>,
        parent_idxs_diff_type: Vec<u32>,
    ) -> (r: Node)
        ensures
            r@ == (NodeV {
                text: text@,
                type_is: Some(type_is),
                file_order,
                level,
                parent_idxs: parent_idxs@,
                parent_idxs_diff_type: parent_idxs_diff_type@,
            }),
    {
        Node { text, type_is: Some(type_is), file_order, level, parent_idxs, parent_idxs_diff_type }
    }
}

impl Default for Node {
    /// An untyped, empty node at level `0` with no parents.
    fn default() -> (r: Node)
        ensures
            r@ == (NodeV {
                text: Seq::<char>::empty(),
                type_is: None,
                file_order: 0,
                level: 0,
                parent_idxs: Seq::<u32>::empty(),
                parent_idxs_diff_type: Seq::<u32>::empty(),
            }),
    {
        let r = Node {
            text: String::new(),
            type_is: None,
            file_order: 0,
            level: 0,
            parent_idxs: Vec::new(),
            parent_idxs_diff_type: Vec::new(),
        };
        proof {
            assert(r.parent_idxs@ =~= Seq::<u32>::empty());
            assert(r.parent_idxs_diff_type@ =~= Seq::<u32>::empty());
        }
        r
    }
}

/// The spec-level value of a [`Nodes`] collection.
pub ghost struct NodesV {
    pub title: Seq<char>,
    pub nodes: Seq<NodeV>,
}

/// A parsed decision tree: the verbatim title line and the ordered nodes.
#[derive(Debug)]
pub struct Nodes {
    /// The first line of the file, kept verbatim for re-writing.
    pub title: String,
    /// The nodes, in file order.
    pub nodes: Vec<Node>,
}

impl View for Nodes {
    type V = NodesV;

    open spec fn view(&self) -> NodesV {
        NodesV { title: self.title@, nodes: self.nodes.deep_view() }
    }
}

impl Default for Nodes {
    /// An empty collection with an empty title.
    fn default() -> (r: Nodes)
        ensures
            r@.title == Seq::<char>::empty(),
            r@.nodes == Seq::<NodeV>::empty(),
    {
        let r = Nodes { title: String::new(), nodes: Vec::new() };
        proof {
            assert(r@.nodes =~= Seq::<NodeV>::empty());
        }
        r
    }
}

} // verus!
